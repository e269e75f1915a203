//! The sampler: an immutable cumulative-weight index built once from a
//! histogram, plus a pure lookup that maps uniform draws to value ids.

use crate::index::{
    bin_weight, centers_strictly_increasing, index_of, interval_for, interval_index,
    lemma_index_offsets, lemma_interval_index_unique, lemma_take_step, lemma_totals_take_le,
    spec_sample, total_count_of, total_weight_of, valid_bins, IntervalModel,
};
use vstd::arithmetic::div_mod::{lemma_div_multiples_vanish, lemma_mod_bound};
use vstd::prelude::*;

verus! {

/// One stored interval of the cumulative index. Draws from `start` up to the
/// next interval's start (or the total weight, for the last interval) map to
/// the ids `first_id + (draw - start) % count`.
#[derive(Clone, Copy, Debug)]
struct Interval {
    start: usize,
    first_id: usize,
    count: usize,
}

/// Samples value ids according to a histogram distribution.
///
/// Built once by [`Sampler::from_bins`] (or checked, by
/// [`Sampler::try_from_bins`]) and immutable afterwards: one interval per
/// non-empty input bin, ordered by start offset, assigning ids contiguously
/// in input order. [`Sampler::sample`] maps a uniform draw in
/// `[0, total_weight)` to an id in `[0, nvalues)`; the caller supplies the
/// draws from whatever uniform source it trusts.
#[derive(Debug)]
pub struct Sampler {
    bins: Vec<Interval>,
    next_id: usize,
    end: usize,
}

impl Clone for Sampler {
    /// The clone samples identically: same intervals, same total weight, same
    /// id count.
    fn clone(&self) -> (s: Self)
        ensures
            s.intervals() == self.intervals(),
            s.spec_nvalues() == self.spec_nvalues(),
            s.spec_total_weight() == self.spec_total_weight(),
    {
        proof {
            use_type_invariant(&*self);
        }
        let bins = self.bins.clone();
        proof {
            assert(bins@ =~= self.bins@);
        }
        let s = Sampler { bins, next_id: self.next_id, end: self.end };
        proof {
            assert(s.intervals() =~= self.intervals());
        }
        s
    }
}

/// Why a histogram was rejected by [`Sampler::try_from_bins`].
#[derive(Clone, Copy, Debug, PartialEq, Eq, Structural)]
pub enum BuildError {
    /// The bin width was zero, which would give the zero-centered bin a zero
    /// weight.
    ZeroBinWidth,
    /// The bin centers were not strictly increasing.
    UnorderedCenters,
    /// The histogram's total weight or total count does not fit in `usize`.
    Overflow,
}

/// Why a draw was rejected by [`Sampler::sample`].
#[derive(Clone, Copy, Debug, PartialEq, Eq, Structural)]
pub enum SampleError {
    /// The index was built from zero non-empty bins, so the total weight is
    /// zero and no draw is valid.
    EmptyDistribution,
    /// The draw was not below the index's total weight.
    DrawOutOfRange,
}

/// The stored intervals match the model intervals on every stored field.
spec fn stored_matches(ivs: Seq<Interval>, model: Seq<IntervalModel>) -> bool {
    &&& ivs.len() == model.len()
    &&& forall|i: int|
        0 <= i < ivs.len() ==> (#[trigger] ivs[i]).start == model[i].start && ivs[i].first_id
            == model[i].first_id && ivs[i].count == model[i].count
}

impl Sampler {
    /// What it means for this sampler to be the cumulative index of the given
    /// histogram: its intervals, total weight, and id count are exactly those
    /// of the model index.
    pub open spec fn built_from(&self, bins: Seq<(usize, usize)>, bin_width: usize) -> bool {
        &&& self.intervals() == index_of(bins, bin_width)
        &&& self.spec_total_weight() == total_weight_of(bins, bin_width)
        &&& self.spec_nvalues() == total_count_of(bins)
    }

    /// The stored cumulative index, as model intervals. Each interval's
    /// weight is recovered from its span: the distance from its start to the
    /// next interval's start (or to the total weight, for the last interval),
    /// divided by its count.
    pub closed spec fn intervals(&self) -> Seq<IntervalModel> {
        Seq::new(
            self.bins@.len(),
            |i: int|
                IntervalModel {
                    start: self.bins@[i].start as int,
                    first_id: self.bins@[i].first_id as int,
                    count: self.bins@[i].count as int,
                    weight: (self.interval_end(i) - self.bins@[i].start as int) / (
                    self.bins@[i].count as int),
                },
        )
    }

    /// Exclusive upper bound of the interval at position `i` in weight space.
    spec fn interval_end(&self, i: int) -> int {
        if i == self.bins@.len() - 1 {
            self.end as int
        } else {
            self.bins@[i + 1].start as int
        }
    }

    /// The number of distinct value ids this sampler can produce.
    pub closed spec fn spec_nvalues(&self) -> int {
        self.next_id as int
    }

    /// The exclusive upper bound for valid draws.
    pub closed spec fn spec_total_weight(&self) -> int {
        self.end as int
    }

    #[verifier::type_invariant]
    spec fn wf(self) -> bool {
        let ivs = self.bins@;
        &&& forall|i: int| 0 <= i < ivs.len() ==> (#[trigger] ivs[i]).count >= 1
        &&& forall|i: int, j: int|
            0 <= i < j < ivs.len() ==> (#[trigger] ivs[i]).start < (#[trigger] ivs[j]).start
        &&& ivs.len() > 0 ==> ivs[0].start == 0 && ivs[0].first_id == 0
        &&& forall|i: int|
            0 <= i < ivs.len() ==> (#[trigger] ivs[i]).first_id + ivs[i].count <= self.next_id
        &&& ivs.len() > 0 ==> ivs.last().start < self.end
        &&& ivs.len() == 0 ==> self.next_id == 0 && self.end == 0
    }

    /// Report the number of distinct values that can be produced.
    ///
    /// Produced samples are guaranteed to be in the range `0..self.nvalues()`.
    pub fn nvalues(&self) -> (n: usize)
        ensures
            n == self.spec_nvalues(),
    {
        self.next_id
    }

    /// Report the total weight of the index: the exclusive upper bound for
    /// the uniform draws that [`Sampler::sample`] accepts.
    pub fn total_weight(&self) -> (w: usize)
        ensures
            w == self.spec_total_weight(),
    {
        self.end
    }

    /// Create a new [`Sampler`] from the given input histogram where the bin
    /// width is `bin_width`.
    ///
    /// The histogram must have a positive bin width, strictly increasing bin
    /// centers, and totals that fit in `usize`; [`Sampler::try_from_bins`]
    /// checks those conditions at run time instead. Bins with a zero count
    /// are skipped. The resulting index assigns to each non-empty bin, in
    /// input order, one interval of weight space whose span is
    /// `count * weight` and whose ids are the next `count` unassigned ones,
    /// so that the number of ids equals the sum of all bin counts.
    pub fn from_bins(bins: Vec<(usize, usize)>, bin_width: usize) -> (s: Sampler)
        requires
            valid_bins(bins@, bin_width),
        ensures
            s.built_from(bins@, bin_width),
            s.spec_nvalues() == total_count_of(bins@),
            s.spec_total_weight() == total_weight_of(bins@, bin_width),
    {
        let mut intervals: Vec<Interval> = Vec::new();
        let mut start: usize = 0;
        let mut next_id: usize = 0;
        let mut j: usize = 0;
        while j < bins.len()
            invariant
                valid_bins(bins@, bin_width),
                j <= bins@.len(),
                start == total_weight_of(bins@.take(j as int), bin_width),
                next_id == total_count_of(bins@.take(j as int)),
                stored_matches(intervals@, index_of(bins@.take(j as int), bin_width)),
            decreases bins@.len() - j,
        {
            let c: usize = bins[j].0;
            let n: usize = bins[j].1;
            proof {
                lemma_take_step(bins@, bin_width, j as int);
                lemma_totals_take_le(bins@, bin_width, j as int + 1);
            }
            if n > 0 {
                proof {
                    assert(bin_weight(c, bin_width) <= (n as int) * bin_weight(c, bin_width))
                        by (nonlinear_arith)
                        requires
                            n >= 1,
                            bin_weight(c, bin_width) >= 0,
                    ;
                }
                let w: usize = if c == 0 {
                    bin_width
                } else {
                    4 * c
                };
                let span: usize = n * w;
                intervals.push(Interval { start, first_id: next_id, count: n });
                proof {
                    let model = index_of(bins@.take(j as int + 1), bin_width);
                    assert(model == index_of(bins@.take(j as int), bin_width).push(
                        interval_for(bins@, bin_width, j as int),
                    ));
                    assert(stored_matches(intervals@, model));
                }
                start = start + span;
                next_id = next_id + n;
            } else {
                proof {
                    assert((n as int) * bin_weight(c, bin_width) == 0) by (nonlinear_arith)
                        requires
                            n == 0,
                    ;
                }
            }
            j = j + 1;
        }
        proof {
            assert(bins@.take(bins@.len() as int) =~= bins@);
            lemma_index_offsets(bins@, bin_width);
        }
        let ghost model = index_of(bins@, bin_width);
        proof {
            assert(stored_matches(intervals@, model));
            assert forall|i: int, k: int|
                0 <= i < k < intervals@.len() implies (#[trigger] intervals@[i]).start < (
            #[trigger] intervals@[k]).start by {
                assert(model[i].start < model[k].start);
            }
            assert forall|i: int|
                0 <= i < intervals@.len() implies (#[trigger] intervals@[i]).first_id
                + intervals@[i].count <= next_id by {
                assert(model[i].first_id + model[i].count <= total_count_of(bins@));
            }
            if intervals@.len() > 0 {
                assert(model.last().start + model.last().count * model.last().weight == start);
                assert(model.last().count * model.last().weight >= 1);
            }
        }
        let s = Sampler { bins: intervals, next_id, end: start };
        proof {
            assert(s.intervals() =~= model) by {
                assert forall|i: int| 0 <= i < s.intervals().len() implies s.intervals()[i]
                    == model[i] by {
                    assert(s.bins@[i].start == model[i].start);
                    let span_i: int = s.interval_end(i) - model[i].start;
                    if i < s.bins@.len() - 1 {
                        assert(model[i].start + model[i].count * model[i].weight == model[i
                            + 1].start);
                    } else {
                        assert(model[i].start + model[i].count * model[i].weight == s.end as int);
                    }
                    assert(span_i == model[i].count * model[i].weight);
                    lemma_div_multiples_vanish(model[i].weight, model[i].count);
                    assert(span_i / model[i].count == model[i].weight);
                }
            }
        }
        s
    }

    /// Map one uniform draw to a value id.
    ///
    /// For a draw in `[0, total_weight)` this returns the id of the interval
    /// the draw falls into — the greatest start offset at or below the draw —
    /// resolved within the interval as `first_id + (draw - start) % count`,
    /// and that id is always in `[0, nvalues)`. A sampler built from zero
    /// non-empty bins has no valid draw at all and every call reports
    /// [`SampleError::EmptyDistribution`]; a draw at or above the total
    /// weight of a non-empty index reports [`SampleError::DrawOutOfRange`].
    pub fn sample(&self, draw: usize) -> (r: Result<usize, SampleError>)
        ensures
            self.spec_total_weight() == 0 ==> r == Err::<usize, SampleError>(
                SampleError::EmptyDistribution,
            ),
            draw < self.spec_total_weight() ==> (r matches Ok(id) && id as int == spec_sample(
                self.intervals(),
                draw as int,
            ) && (id as int) < self.spec_nvalues()),
            self.spec_total_weight() > 0 && draw >= self.spec_total_weight() ==> r == Err::<
                usize,
                SampleError,
            >(SampleError::DrawOutOfRange),
    {
        proof {
            use_type_invariant(&*self);
        }
        if self.end == 0 {
            return Err(SampleError::EmptyDistribution);
        }
        if draw >= self.end {
            return Err(SampleError::DrawOutOfRange);
        }
        // The index is non-empty: an empty one has zero total weight.
        assert(self.bins@.len() > 0);

        // Binary search for the greatest start offset at or below the draw.
        let mut lo: usize = 0;
        let mut hi: usize = self.bins.len() - 1;
        while lo != hi
            invariant
                self.wf(),
                lo <= hi < self.bins@.len(),
                self.bins@[lo as int].start <= draw,
                hi < self.bins@.len() - 1 ==> draw < self.bins@[hi as int + 1].start,
            decreases hi - lo,
        {
            let mid: usize = hi - (hi - lo) / 2;
            if self.bins[mid].start <= draw {
                lo = mid;
            } else {
                hi = mid - 1;
            }
        }

        let found = self.bins[lo];
        proof {
            let ivs = self.intervals();
            assert forall|i: int, j: int|
                0 <= i < j < ivs.len() implies (#[trigger] ivs[i]).start < (
            #[trigger] ivs[j]).start by {
                assert(self.bins@[i].start < self.bins@[j].start);
            }
            assert(ivs[lo as int].start == found.start as int);
            lemma_interval_index_unique(ivs, draw as int, lo as int);
            lemma_mod_bound(draw as int - found.start as int, found.count as int);
        }
        Ok(found.first_id + (draw - found.start) % found.count)
    }

    /// Create a new [`Sampler`] after checking the histogram, reporting
    /// exactly why an invalid one was rejected.
    ///
    /// A histogram is rejected when its bin width is zero
    /// ([`BuildError::ZeroBinWidth`]); otherwise when its centers are not
    /// strictly increasing ([`BuildError::UnorderedCenters`]); otherwise when
    /// its total weight or total count does not fit in `usize`
    /// ([`BuildError::Overflow`]). Every other histogram builds, exactly as
    /// [`Sampler::from_bins`] would.
    #[verifier::rlimit(50)]
    pub fn try_from_bins(bins: Vec<(usize, usize)>, bin_width: usize) -> (r: Result<
        Sampler,
        BuildError,
    >)
        ensures
            r matches Ok(s) ==> valid_bins(bins@, bin_width) && s.built_from(bins@, bin_width),
            valid_bins(bins@, bin_width) ==> r is Ok,
            bin_width == 0 ==> r == Err::<Sampler, BuildError>(BuildError::ZeroBinWidth),
            bin_width >= 1 && !centers_strictly_increasing(bins@) ==> r == Err::<
                Sampler,
                BuildError,
            >(BuildError::UnorderedCenters),
            bin_width >= 1 && centers_strictly_increasing(bins@) && (total_weight_of(
                bins@,
                bin_width,
            ) > usize::MAX || total_count_of(bins@) > usize::MAX) ==> r == Err::<
                Sampler,
                BuildError,
            >(BuildError::Overflow),
    {
        if bin_width == 0 {
            return Err(BuildError::ZeroBinWidth);
        }

        // First pass: the centers must be strictly increasing.
        if bins.len() > 1 {
            let mut j: usize = 0;
            while j < bins.len() - 1
                invariant
                    bin_width >= 1,
                    bins@.len() >= 2,
                    j <= bins@.len() - 1,
                    forall|i: int| 0 <= i < j ==> (#[trigger] bins@[i]).0 < bins@[i + 1].0,
                decreases bins@.len() - 1 - j,
            {
                if bins[j].0 >= bins[j + 1].0 {
                    proof {
                        assert(!centers_strictly_increasing(bins@)) by {
                            if centers_strictly_increasing(bins@) {
                                assert(bins@[j as int].0 < bins@[j as int + 1].0);
                            }
                        }
                    }
                    return Err(BuildError::UnorderedCenters);
                }
                j = j + 1;
            }
        }
        assert(centers_strictly_increasing(bins@));

        // Second pass: both totals must fit in usize.
        let mut tw: usize = 0;
        let mut tc: usize = 0;
        let mut j: usize = 0;
        while j < bins.len()
            invariant
                bin_width >= 1,
                centers_strictly_increasing(bins@),
                j <= bins@.len(),
                tw == total_weight_of(bins@.take(j as int), bin_width),
                tc == total_count_of(bins@.take(j as int)),
            decreases bins@.len() - j,
        {
            let c: usize = bins[j].0;
            let n: usize = bins[j].1;
            proof {
                lemma_take_step(bins@, bin_width, j as int);
                lemma_totals_take_le(bins@, bin_width, j as int + 1);
            }
            if n > 0 {
                proof {
                    assert(bin_weight(c, bin_width) <= (n as int) * bin_weight(c, bin_width))
                        by (nonlinear_arith)
                        requires
                            n >= 1,
                            bin_weight(c, bin_width) >= 0,
                    ;
                }
                let mut w: usize = bin_width;
                if c > 0 {
                    let scaled = c.checked_mul(4);
                    if scaled.is_none() {
                        return Err(BuildError::Overflow);
                    }
                    w = scaled.unwrap();
                }
                let span = n.checked_mul(w);
                if span.is_none() {
                    return Err(BuildError::Overflow);
                }
                let next_tw = tw.checked_add(span.unwrap());
                if next_tw.is_none() {
                    return Err(BuildError::Overflow);
                }
                let next_tc = tc.checked_add(n);
                if next_tc.is_none() {
                    return Err(BuildError::Overflow);
                }
                tw = next_tw.unwrap();
                tc = next_tc.unwrap();
            } else {
                proof {
                    assert((n as int) * bin_weight(c, bin_width) == 0) by (nonlinear_arith)
                        requires
                            n == 0,
                    ;
                }
            }
            j = j + 1;
        }
        proof {
            assert(bins@.take(bins@.len() as int) =~= bins@);
        }
        Ok(Sampler::from_bins(bins, bin_width))
    }
}

/// The ids a draw sequence maps to under a sampler's index.
pub open spec fn sample_ids(s: Sampler, draws: Seq<usize>) -> Seq<int> {
    draws.map_values(|d: usize| spec_sample(s.intervals(), d as int))
}

/// Determinism: two samplers built from identical histograms (the same bins
/// and the same bin width) map any identical sequence of draws to identical
/// sequences of value ids.
pub proof fn lemma_sample_deterministic(
    s1: Sampler,
    s2: Sampler,
    bins: Seq<(usize, usize)>,
    bin_width: usize,
    draws: Seq<usize>,
)
    requires
        s1.built_from(bins, bin_width),
        s2.built_from(bins, bin_width),
    ensures
        sample_ids(s1, draws) == sample_ids(s2, draws),
{
    assert(s1.intervals() == s2.intervals());
    assert(sample_ids(s1, draws) =~= sample_ids(s2, draws));
}

} // verus!
