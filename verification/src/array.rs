//! Owned inline-array histogram.
//!
//! - `HistogramArray<LEN, Cnt>` embeds its `[Cnt; LEN]` counts,
//!   for callers who want one self-contained value.
//! - `LEN` is explicit and checked at construction against
//!   `Config::total_buckets()`.
use vstd::prelude::*;
use crate::analysis::{
    Buckets, clamp_rank, first_reaching, merged_counts, merge_into, value_at_rank_of,
};
use crate::config::{Config, Error, buckets_of, index_of, range_high, valid_powers};
use crate::counter::Counter;
use crate::histogram::{
    Histogram, after_record, count_values, record_into, sat_add_value, sat_u64, sum_counts, total_of,
};

verus! {

/// A histogram owning its counts inline; `LEN` must equal
/// `config.total_buckets()`.
#[derive(Debug)]
pub struct HistogramArray<const LEN: usize, Cnt: Counter = u32> {
    config: Config,
    counts: [Cnt; LEN],
}

impl<const LEN: usize, Cnt: Counter> View for HistogramArray<LEN, Cnt> {
    type V = Seq<nat>;

    /// The bucket counts, lowest bucket first.
    closed spec fn view(&self) -> Seq<nat> {
        count_values(self.counts@)
    }
}

impl<const LEN: usize, Cnt: Counter> HistogramArray<LEN, Cnt> {
    /// The config this histogram records with.
    pub closed spec fn spec_config(self) -> Config {
        self.config
    }

    /// Well-formedness: `LEN` counters, one per bucket of a
    /// valid config. `new` establishes it and every method keeps
    /// it.
    pub closed spec fn wf(self) -> bool {
        &&& valid_powers(self.config.g(), self.config.n())
        &&& LEN == buckets_of(self.config.g(), self.config.n())
    }

    /// The array holds `LEN` counts; when well-formed, one per
    /// bucket of a valid config.
    pub proof fn lemma_wf_len(self)
        ensures
            self@.len() == LEN,
            self.wf() ==> valid_powers(self.spec_config().g(), self.spec_config().n()) && LEN
                == buckets_of(self.spec_config().g(), self.spec_config().n()),
    {
    }

    /// Build a zeroed histogram; `Error::StorageLen` if
    /// `LEN != config.total_buckets()`.
    pub fn new(config: Config) -> (r: Result<Self, Error>)
        ensures
            r is Ok <==> LEN == buckets_of(config.g(), config.n()),
            r matches Err(e) ==> e == Error::StorageLen,
            r matches Ok(h) ==> h.wf() && h.spec_config() == config && h@ == Seq::new(
                LEN as nat,
                |i: int| 0nat,
            ),
    {
        let _ = config.grouping_power();
        if config.total_buckets() != LEN {
            return Err(Error::StorageLen);
        }
        let zero = Cnt::from_u64_sat(0);
        let h = HistogramArray { config, counts: [zero; LEN] };
        proof {
            assert(h@ =~= Seq::new(LEN as nat, |i: int| 0nat));
        }
        Ok(h)
    }

    /// The config this histogram was built with.
    pub fn config(&self) -> (r: Config)
        ensures
            r == self.spec_config(),
    {
        self.config
    }

    /// Saturating sum of all bucket counts.
    pub fn total(&self) -> (r: u64)
        ensures
            r == sat_u64(sum_counts(self@)),
    {
        total_of(&self.counts)
    }

    /// Record one occurrence of `value`; semantics of
    /// [`Histogram::record`].
    pub fn record(&mut self, value: u64)
        requires
            old(self).wf(),
        ensures
            final(self).wf(),
            final(self).spec_config() == old(self).spec_config(),
            final(self)@ == after_record(
                old(self)@,
                old(self).spec_config().g(),
                old(self).spec_config().n(),
                value as nat,
                1,
                Cnt::cap(),
            ),
    {
        self.record_n(value, 1);
    }

    /// Record `count` occurrences of `value`; semantics of
    /// [`Histogram::record_n`].
    pub fn record_n(&mut self, value: u64, count: u64)
        requires
            old(self).wf(),
        ensures
            final(self).wf(),
            final(self).spec_config() == old(self).spec_config(),
            final(self)@ == after_record(
                old(self)@,
                old(self).spec_config().g(),
                old(self).spec_config().n(),
                value as nat,
                count as nat,
                Cnt::cap(),
            ),
    {
        proof {
            crate::config::lemma_index_below_total(self.config.g(), self.config.n(), value as nat);
        }
        record_into(&self.config, &mut self.counts, value, count);
    }

    /// Count in bucket `index`, widened to u64; `None` past the
    /// last bucket.
    pub fn count_at(&self, index: usize) -> (r: Option<u64>)
        ensures
            r is None <==> index >= LEN,
            r == if index < self@.len() {
                Some(self@[index as int] as u64)
            } else {
                None
            },
    {
        if index < LEN {
            Some(self.counts[index].to_u64())
        } else {
            None
        }
    }

    /// Walk every bucket lowest-first, with cumulative counts.
    pub fn buckets(&self) -> (r: Buckets<'_, Cnt>)
        requires
            self.wf(),
        ensures
            r.spec_config() == self.spec_config(),
            r.counts_view() == self@,
            r.position() == 0,
    {
        Buckets::new(self.config, &self.counts)
    }

    /// Value at a rank; semantics of [`Histogram::value_at_rank`].
    pub fn value_at_rank(&self, rank: u64) -> (r: Option<u64>)
        requires
            self.wf(),
        ensures
            sat_u64(sum_counts(self@)) == 0 ==> r is None,
            sat_u64(sum_counts(self@)) > 0 ==> exists|i: int|
                first_reaching(self@, clamp_rank(rank as nat, sat_u64(sum_counts(self@))), i)
                    && r == Some(range_high(self.spec_config().g(), i as nat) as u64),
    {
        value_at_rank_of(&self.config, &self.counts, rank)
    }

    /// Merge `other`'s counts into `self` (saturating); configs
    /// must be identical.
    pub fn merge_from(&mut self, other: &HistogramArray<LEN, Cnt>) -> (r: Result<(), Error>)
        requires
            old(self).wf(),
            other.wf(),
        ensures
            final(self).wf(),
            final(self).spec_config() == old(self).spec_config(),
            r is Ok <==> old(self).spec_config() == other.spec_config(),
            r matches Err(e) ==> e == Error::ConfigMismatch && final(self)@ == old(self)@,
            r is Ok ==> final(self)@ == merged_counts(old(self)@, other@, Cnt::cap()),
    {
        merge_into(&self.config, &mut self.counts, &other.config, &other.counts)
    }

    /// Borrow as the slice-backed [`Histogram`] view — one
    /// analysis surface for both storage shapes.
    pub fn as_histogram(&mut self) -> (r: Histogram<'_, Cnt>)
        requires
            old(self).wf(),
        ensures
            r.wf(),
            r.spec_config() == old(self).spec_config(),
            r@ == old(self)@,
    {
        Histogram::new(self.config, &mut self.counts).unwrap()
    }
}

/// The two storage shapes record alike: from equal counts under
/// one config, recording `count` occurrences of `value` into a
/// [`HistogramArray`] and into a slice-backed [`Histogram`]
/// leaves equal counts — both contracts apply `after_record`.
pub proof fn lemma_record_agrees<'b, const LEN: usize, Cnt: Counter>(
    owned: HistogramArray<LEN, Cnt>,
    borrowed: Histogram<'b, Cnt>,
    value: u64,
    count: u64,
)
    requires
        owned.spec_config() == borrowed.spec_config(),
        owned@ == borrowed@,
    ensures
        after_record(
            owned@,
            owned.spec_config().g(),
            owned.spec_config().n(),
            value as nat,
            count as nat,
            Cnt::cap(),
        ) == after_record(
            borrowed@,
            borrowed.spec_config().g(),
            borrowed.spec_config().n(),
            value as nat,
            count as nat,
            Cnt::cap(),
        ),
{
}

} // verus!
