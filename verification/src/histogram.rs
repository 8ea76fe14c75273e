//! The borrowed-storage histogram and its record path.
//!
//! - `Histogram` borrows its counts slice from the caller, so
//!   storage stays detachable.
//! - `record` is the one hot operation: index (a compare, a
//!   clz, two shifts) and a saturating increment.
use vstd::prelude::*;
use crate::config::{
    Config, Error, buckets_of, index_of, range_low, range_high, valid_powers,
};
use crate::counter::Counter;
use crate::analysis::{
    Buckets, cumulative_at, clamp_rank, first_reaching, merged_counts, merge_into, value_at_rank_of,
};

verus! {

/// The counts a slice of counters holds.
pub open spec fn count_values<Cnt: Counter>(s: Seq<Cnt>) -> Seq<nat> {
    s.map_values(|c: Cnt| c.value())
}

/// The plain sum of a sequence of counts.
pub open spec fn sum_counts(s: Seq<nat>) -> nat
    decreases s.len(),
{
    if s.len() == 0 {
        0
    } else {
        sum_counts(s.drop_last()) + s.last()
    }
}

/// A count pinned at `u64::MAX`.
pub open spec fn sat_u64(x: nat) -> nat {
    if x <= u64::MAX {
        x
    } else {
        u64::MAX as nat
    }
}

/// A counter's value after a saturating add of `by`.
pub open spec fn sat_add_value(value: nat, by: nat, cap: nat) -> nat {
    if value + by <= cap {
        value + by
    } else {
        cap
    }
}

/// The counts after recording `count` occurrences of `value`
/// with the powers `(g, n)` into counters capped at `cap`: the
/// value's bucket goes up by `count`, saturating at `cap`.
pub open spec fn after_record(vals: Seq<nat>, g: nat, n: nat, value: nat, count: nat, cap: nat) -> Seq<
    nat,
> {
    vals.update(index_of(g, n, value) as int, sat_add_value(vals[index_of(g, n, value) as int], count, cap))
}

/// Extending a prefix by one element adds that element to the sum.
pub proof fn lemma_sum_take_step(s: Seq<nat>, i: int)
    requires
        0 <= i < s.len(),
    ensures
        sum_counts(s.take(i + 1)) == sum_counts(s.take(i)) + s[i],
{
    assert(s.take(i + 1).drop_last() =~= s.take(i));
}

/// Prefix sums never decrease.
pub proof fn lemma_sum_take_monotone(s: Seq<nat>, i: int, j: int)
    requires
        0 <= i <= j <= s.len(),
    ensures
        sum_counts(s.take(i)) <= sum_counts(s.take(j)),
    decreases j - i,
{
    if i < j {
        lemma_sum_take_monotone(s, i, j - 1);
        lemma_sum_take_step(s, j - 1);
    }
}

/// No element exceeds the sum.
pub proof fn lemma_element_le_sum(s: Seq<nat>, i: int)
    requires
        0 <= i < s.len(),
    ensures
        s[i] <= sum_counts(s),
{
    lemma_sum_take_step(s, i);
    lemma_sum_take_monotone(s, i + 1, s.len() as int);
    assert(s.take(s.len() as int) =~= s);
}

/// Replacing one element changes the sum by the difference.
pub proof fn lemma_sum_update(s: Seq<nat>, i: int, v: nat)
    requires
        0 <= i < s.len(),
    ensures
        sum_counts(s.update(i, v)) + s[i] == sum_counts(s) + v,
    decreases s.len(),
{
    let t = s.update(i, v);
    if i == s.len() - 1 {
        assert(t.drop_last() =~= s.drop_last());
    } else {
        lemma_sum_update(s.drop_last(), i, v);
        assert(t.drop_last() =~= s.drop_last().update(i, v));
    }
}

/// Saturating adds compose: adding `a` then `b` to a counter
/// leaves what adding `a + b` at once does, so `record_n(v, a)`
/// then `record_n(v, b)` equals `record_n(v, a + b)`.
pub proof fn lemma_sat_add_composes(value: nat, a: nat, b: nat, cap: nat)
    requires
        value <= cap,
    ensures
        sat_add_value(sat_add_value(value, a, cap), b, cap) == sat_add_value(value, a + b, cap),
{
}

/// Saturating at each step is saturating at the end.
pub proof fn lemma_sat_step(a: nat, b: nat)
    ensures
        sat_u64(sat_u64(a) + b) == sat_u64(a + b),
{
}

/// Saturating sum of a counts slice — the read-time total.
pub fn total_of<Cnt: Counter>(counts: &[Cnt]) -> (r: u64)
    ensures
        r == sat_u64(sum_counts(count_values(counts@))),
{
    let ghost vals = count_values(counts@);
    let mut total = 0u64;
    let mut i = 0usize;
    while i < counts.len()
        invariant
            i <= counts@.len(),
            vals == count_values(counts@),
            total == sat_u64(sum_counts(vals.take(i as int))),
        decreases counts@.len() - i,
    {
        proof {
            lemma_sum_take_step(vals, i as int);
            lemma_sat_step(sum_counts(vals.take(i as int)), vals[i as int]);
        }
        total = total.saturating_add(counts[i].to_u64());
        i += 1;
    }
    proof {
        assert(vals.take(counts@.len() as int) =~= vals);
    }
    total
}

/// Shared record-path core: index `value`, saturating-add
/// `count` into its bucket. A bucket past the slice's end is
/// left alone.
pub fn record_into<Cnt: Counter>(config: &Config, counts: &mut [Cnt], value: u64, count: u64)
    ensures
        final(counts)@.len() == old(counts)@.len(),
        index_of(config.g(), config.n(), value as nat) < old(counts)@.len() ==> count_values(
            final(counts)@,
        ) == count_values(old(counts)@).update(
            index_of(config.g(), config.n(), value as nat) as int,
            sat_add_value(
                count_values(old(counts)@)[index_of(config.g(), config.n(), value as nat) as int],
                count as nat,
                Cnt::cap(),
            ),
        ),
        index_of(config.g(), config.n(), value as nat) >= old(counts)@.len() ==> final(counts)@
            == old(counts)@,
{
    let idx = config.index_for(value);
    if idx < counts.len() {
        let cnt = counts[idx];
        counts[idx] = cnt.sat_add(count);
        proof {
            assert(count_values(final(counts)@) =~= count_values(old(counts)@).update(
                idx as int,
                sat_add_value(count_values(old(counts)@)[idx as int], count as nat, Cnt::cap()),
            ));
        }
    }
}


/// A log-linear histogram over caller-supplied counts storage.
///
/// - `config` — the h2 powers and index math.
/// - `counts` — exactly `config.total_buckets()` counters.
/// - No derived state: totals are computed from the counts at
///   read time, keeping the record path minimal.
#[derive(Debug)]
pub struct Histogram<'a, Cnt: Counter = u32> {
    config: Config,
    counts: &'a mut [Cnt],
}

impl<'a, Cnt: Counter> View for Histogram<'a, Cnt> {
    type V = Seq<nat>;

    /// The bucket counts, lowest bucket first.
    closed spec fn view(&self) -> Seq<nat> {
        count_values(self.counts@)
    }
}

impl<'a, Cnt: Counter> Histogram<'a, Cnt> {
    /// The config this histogram records with.
    pub closed spec fn spec_config(self) -> Config {
        self.config
    }

    /// Well-formedness: the storage holds exactly one counter
    /// per bucket of a valid config. `new` establishes it and
    /// every method keeps it.
    pub closed spec fn wf(self) -> bool {
        &&& valid_powers(self.config.g(), self.config.n())
        &&& self.counts@.len() == buckets_of(self.config.g(), self.config.n())
    }

    /// A well-formed histogram has one count per bucket of a
    /// valid config.
    pub proof fn lemma_wf_len(self)
        requires
            self.wf(),
        ensures
            valid_powers(self.spec_config().g(), self.spec_config().n()),
            self@.len() == buckets_of(self.spec_config().g(), self.spec_config().n()),
    {
    }

    /// Bind a config to its counts storage; `Error::StorageLen`
    /// unless `counts.len()` equals `config.total_buckets()`.
    pub fn new(config: Config, counts: &'a mut [Cnt]) -> (r: Result<Self, Error>)
        ensures
            r is Ok <==> old(counts)@.len() == buckets_of(config.g(), config.n()),
            r matches Err(e) ==> e == Error::StorageLen,
            r matches Ok(h) ==> h.wf() && h.spec_config() == config && h@ == count_values(
                old(counts)@,
            ),
    {
        let _ = config.grouping_power();
        if counts.len() != config.total_buckets() {
            return Err(Error::StorageLen);
        }
        Ok(Histogram { config, counts })
    }

    /// The config this histogram was built with.
    pub fn config(&self) -> (r: Config)
        ensures
            r == self.spec_config(),
    {
        self.config
    }

    /// Saturating sum of all bucket counts.
    pub fn total(&self) -> (r: u64)
        ensures
            r == sat_u64(sum_counts(self@)),
    {
        total_of(self.counts)
    }

    /// Record one occurrence of `value`: its bucket's counter
    /// goes up by one, saturating; over-range values clamp into
    /// the top bucket.
    pub fn record(&mut self, value: u64)
        requires
            old(self).wf(),
        ensures
            final(self).wf(),
            final(self).spec_config() == old(self).spec_config(),
            final(self)@ == after_record(
                old(self)@,
                old(self).spec_config().g(),
                old(self).spec_config().n(),
                value as nat,
                1,
                Cnt::cap(),
            ),
    {
        self.record_n(value, 1);
    }

    /// Record `count` occurrences of `value`: its bucket's
    /// counter goes up by `count`, saturating.
    pub fn record_n(&mut self, value: u64, count: u64)
        requires
            old(self).wf(),
        ensures
            final(self).wf(),
            final(self).spec_config() == old(self).spec_config(),
            final(self)@ == after_record(
                old(self)@,
                old(self).spec_config().g(),
                old(self).spec_config().n(),
                value as nat,
                count as nat,
                Cnt::cap(),
            ),
    {
        proof {
            crate::config::lemma_index_below_total(self.config.g(), self.config.n(), value as nat);
        }
        record_into(&self.config, self.counts, value, count);
    }

    /// Count in bucket `index`, widened to u64; `None` past the
    /// last bucket.
    pub fn count_at(&self, index: usize) -> (r: Option<u64>)
        ensures
            r == if index < self@.len() {
                Some(self@[index as int] as u64)
            } else {
                None
            },
    {
        if index < self.counts.len() {
            Some(self.counts[index].to_u64())
        } else {
            None
        }
    }

    /// Walk every bucket lowest-first, with cumulative counts
    /// (the band-table building block).
    pub fn buckets(&self) -> (r: Buckets<'_, Cnt>)
        requires
            self.wf(),
        ensures
            r.spec_config() == self.spec_config(),
            r.counts_view() == self@,
            r.position() == 0,
    {
        Buckets::new(self.config, self.counts)
    }

    /// Value at a rank: the upper bound of the first bucket whose
    /// running total reaches `rank` (clamped into `1..=total`) —
    /// the integer core of a quantile read; `None` when empty.
    pub fn value_at_rank(&self, rank: u64) -> (r: Option<u64>)
        requires
            self.wf(),
        ensures
            sat_u64(sum_counts(self@)) == 0 ==> r is None,
            sat_u64(sum_counts(self@)) > 0 ==> exists|i: int|
                first_reaching(self@, clamp_rank(rank as nat, sat_u64(sum_counts(self@))), i)
                    && r == Some(range_high(self.spec_config().g(), i as nat) as u64),
    {
        value_at_rank_of(&self.config, self.counts, rank)
    }

    /// Merge `other`'s counts into `self` (saturating); configs
    /// must be identical (`Error::ConfigMismatch` otherwise, with
    /// `self` untouched).
    pub fn merge_from(&mut self, other: &Histogram<'_, Cnt>) -> (r: Result<(), Error>)
        requires
            old(self).wf(),
            other.wf(),
        ensures
            final(self).wf(),
            final(self).spec_config() == old(self).spec_config(),
            r is Ok <==> old(self).spec_config() == other.spec_config(),
            r matches Err(e) ==> e == Error::ConfigMismatch && final(self)@ == old(self)@,
            r is Ok ==> final(self)@ == merged_counts(old(self)@, other@, Cnt::cap()),
    {
        merge_into(&self.config, self.counts, &other.config, other.counts)
    }

    /// Release the borrow and hand the counts slice back.
    pub fn into_counts(self) -> (r: &'a mut [Cnt])
        ensures
            count_values(r@) == self@,
            self.wf() ==> r@.len() == buckets_of(self.spec_config().g(), self.spec_config().n()),
    {
        let Histogram { counts, .. } = self;
        counts
    }
}

} // verus!
