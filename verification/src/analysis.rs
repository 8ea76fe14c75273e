//! Off-hot-path analysis: bucket walks, rank lookups, merge.
//!
//! - Shared by the borrowed and owned histogram types; all
//!   O(buckets), integer math.
//! - The walk carries **cumulative** counts so band tables
//!   (quantile fences, trimmed stats) fall out of one pass.
use vstd::prelude::*;
use crate::config::{
    Config, Error, buckets_of, clamp_value, index_of, range_low, range_high, valid_powers,
};
use crate::counter::Counter;
use crate::bands::{ascending_walk, consistent_walk, span, walk_end};
use crate::histogram::{
    count_values, sum_counts, sat_u64, sat_add_value, lemma_sum_take_step, lemma_sat_step,
    lemma_sum_take_monotone, lemma_sum_update,
};

verus! {

/// One bucket as seen by the walk.
///
/// - `low`/`high` — inclusive value range.
/// - `count` — occurrences recorded in this bucket.
/// - `cumulative` — occurrences in this bucket and every
///   bucket below it (saturating).
#[derive(Debug, Clone, Copy, PartialEq, Eq, Structural)]
pub struct Bucket {
    /// Inclusive low end of the bucket's value range.
    pub low: u64,
    /// Inclusive high end of the bucket's value range.
    pub high: u64,
    /// Count recorded in this bucket.
    pub count: u64,
    /// Saturating running total through this bucket.
    pub cumulative: u64,
}

impl Bucket {
    /// How many of this bucket's ranks `(cumulative - count,
    /// cumulative]` fall inside the rank window `(lo, hi]`.
    pub fn window_ranks(&self, lo: u64, hi: u64) -> (r: u64)
        requires
            self.count <= self.cumulative,
        ensures
            r == span(self.cumulative - self.count + 1, self.cumulative as int, lo as int, hi as int),
    {
        if self.count == 0 {
            return 0;
        }
        let start = self.cumulative - self.count;
        let from = if start > lo {
            start
        } else {
            lo
        };
        let to = if self.cumulative < hi {
            self.cumulative
        } else {
            hi
        };
        if to <= from {
            return 0;
        }
        to - from
    }
}

/// Ranks of a walk inside the window `(lo, hi]`, summed bucket
/// by bucket.
pub open spec fn window_total(buckets: Seq<Bucket>, lo: int, hi: int) -> nat
    decreases buckets.len(),
{
    if buckets.len() == 0 {
        0
    } else {
        window_total(buckets.drop_last(), lo, hi) + span(
            buckets.last().cumulative - buckets.last().count + 1,
            buckets.last().cumulative as int,
            lo,
            hi,
        )
    }
}

/// Rank windows count exactly: summed over a consistent walk,
/// the buckets' ranks inside `(lo, hi]` are the ranks `r` of
/// `1..=walk_end` with `lo < r <= hi`; `(0, total]` counts every
/// rank.
pub proof fn lemma_window_exact(buckets: Seq<Bucket>, lo: int, hi: int)
    requires
        consistent_walk(buckets),
        lo >= 0,
    ensures
        window_total(buckets, lo, hi) == span(1, walk_end(buckets) as int, lo, hi),
        hi >= walk_end(buckets) ==> window_total(buckets, 0, hi) == walk_end(buckets),
    decreases buckets.len(),
{
    if buckets.len() > 0 {
        crate::bands::lemma_walk_prefix(buckets);
        lemma_window_exact(buckets.drop_last(), lo, hi);
        lemma_window_exact(buckets.drop_last(), 0, hi);
        crate::bands::lemma_span_additive(
            walk_end(buckets.drop_last()) as int,
            walk_end(buckets) as int,
            lo,
            hi,
        );
        crate::bands::lemma_span_additive(
            walk_end(buckets.drop_last()) as int,
            walk_end(buckets) as int,
            0,
            hi,
        );
    }
}

/// Ranks of the walk `buckets` inside the window `(lo, hi]` —
/// the count of a windowed summary.
pub fn window_count(buckets: &[Bucket], lo: u64, hi: u64) -> (r: u64)
    requires
        consistent_walk(buckets@),
    ensures
        r == window_total(buckets@, lo as int, hi as int),
        r == span(1, walk_end(buckets@) as int, lo as int, hi as int),
{
    let mut count: u64 = 0;
    let mut k: usize = 0;
    while k < buckets.len()
        invariant
            consistent_walk(buckets@),
            k <= buckets@.len(),
            count == window_total(buckets@.take(k as int), lo as int, hi as int),
        decreases buckets@.len() - k,
    {
        proof {
            crate::bands::lemma_walk_take(buckets@, (k + 1) as int);
            lemma_window_exact(buckets@.take((k + 1) as int), lo as int, hi as int);
            assert(buckets@.take((k + 1) as int).drop_last() =~= buckets@.take(k as int));
            assert(buckets@.take((k + 1) as int).last() == buckets@[k as int]);
            assert(buckets@[k as int].count <= buckets@[k as int].cumulative);
        }
        count = count + buckets[k].window_ranks(lo, hi);
        k += 1;
    }
    proof {
        assert(buckets@.take(buckets@.len() as int) =~= buckets@);
        lemma_window_exact(buckets@, lo as int, hi as int);
    }
    count
}

/// Saturating running total of `vals` through index `i`.
pub open spec fn cumulative_at(vals: Seq<nat>, i: int) -> nat {
    sat_u64(sum_counts(vals.take(i + 1)))
}

/// Bucket `i` of a histogram with grouping power `g` and counts
/// `vals`, as the walk reports it.
pub open spec fn bucket_at(g: nat, vals: Seq<nat>, i: int) -> Bucket {
    Bucket {
        low: range_low(g, i as nat) as u64,
        high: range_high(g, i as nat) as u64,
        count: vals[i] as u64,
        cumulative: cumulative_at(vals, i) as u64,
    }
}

/// Walk over every bucket (empty ones included), lowest value
/// first.
#[derive(Debug)]
pub struct Buckets<'a, Cnt: Counter> {
    config: Config,
    counts: &'a [Cnt],
    index: usize,
    cumulative: u64,
}

impl<'a, Cnt: Counter> Buckets<'a, Cnt> {
    /// The config whose ranges the walk reports.
    pub closed spec fn spec_config(self) -> Config {
        self.config
    }

    /// The counts being walked.
    pub closed spec fn counts_view(self) -> Seq<nat> {
        count_values(self.counts@)
    }

    /// Index of the next bucket the walk reports.
    pub closed spec fn position(self) -> nat {
        self.index as nat
    }

    #[verifier::type_invariant]
    closed spec fn walk_inv(self) -> bool {
        &&& valid_powers(self.config.g(), self.config.n())
        &&& self.counts@.len() == buckets_of(self.config.g(), self.config.n())
        &&& self.index <= self.counts@.len()
        &&& self.cumulative == sat_u64(sum_counts(count_values(self.counts@).take(self.index as int)))
    }

    /// Start a walk at bucket 0.
    pub(crate) fn new(config: Config, counts: &'a [Cnt]) -> (r: Self)
        requires
            valid_powers(config.g(), config.n()),
            counts@.len() == buckets_of(config.g(), config.n()),
        ensures
            r.spec_config() == config,
            r.counts_view() == count_values(counts@),
            r.position() == 0,
    {
        Buckets { config, counts, index: 0, cumulative: 0 }
    }

    /// Buckets the walk has yet to report.
    pub fn len(&self) -> (r: usize)
        ensures
            r == self.counts_view().len() - self.position(),
    {
        proof {
            use_type_invariant(self);
        }
        self.counts.len() - self.index
    }

    /// The next bucket, `None` once every bucket was reported.
    pub fn next(&mut self) -> (r: Option<Bucket>)
        ensures
            final(self).spec_config() == old(self).spec_config(),
            final(self).counts_view() == old(self).counts_view(),
            old(self).position() < old(self).counts_view().len() ==> r == Some(
                bucket_at(
                    old(self).spec_config().g(),
                    old(self).counts_view(),
                    old(self).position() as int,
                ),
            ) && final(self).position() == old(self).position() + 1,
            old(self).position() >= old(self).counts_view().len() ==> r is None
                && final(self).position() == old(self).position(),
    {
        proof {
            use_type_invariant(&*self);
        }
        if self.index >= self.counts.len() {
            return None;
        }
        let ghost vals = count_values(self.counts@);
        let count = self.counts[self.index].to_u64();
        proof {
            lemma_sum_take_step(vals, self.index as int);
            lemma_sat_step(sum_counts(vals.take(self.index as int)), vals[self.index as int]);
            crate::config::lemma_bucket_ends_index_back(
                self.config.g(),
                self.config.n(),
                self.index as nat,
            );
            crate::config::lemma_valid_powers_facts(self.config.g(), self.config.n());
        }
        let cumulative = self.cumulative.saturating_add(count);
        let (low, high) = self.config.value_range(self.index);
        *self = Buckets {
            config: self.config,
            counts: self.counts,
            index: self.index + 1,
            cumulative,
        };
        Some(Bucket { low, high, count, cumulative })
    }

    /// Every remaining bucket, in walk order.
    pub fn collect(self) -> (r: Vec<Bucket>)
        ensures
            r@.len() == self.counts_view().len() - self.position(),
            forall|k: int|
                0 <= k < r@.len() ==> #[trigger] r@[k] == bucket_at(
                    self.spec_config().g(),
                    self.counts_view(),
                    self.position() + k,
                ),
    {
        proof {
            use_type_invariant(&self);
        }
        let mut walk = self;
        let mut out: Vec<Bucket> = Vec::new();
        let ghost start = self.position();
        while walk.index < walk.counts.len()
            invariant
                walk.spec_config() == self.spec_config(),
                walk.counts_view() == self.counts_view(),
                start == self.position(),
                start <= walk.position() <= walk.counts_view().len(),
                out@.len() == walk.position() - start,
                forall|k: int|
                    0 <= k < out@.len() ==> #[trigger] out@[k] == bucket_at(
                        self.spec_config().g(),
                        self.counts_view(),
                        start + k,
                    ),
            decreases walk.counts_view().len() - walk.position(),
        {
            proof {
                use_type_invariant(&walk);
            }
            let b = walk.next();
            if let Some(b) = b {
                out.push(b);
            }
        }
        proof {
            use_type_invariant(&walk);
        }
        out
    }
}


/// A rank clamped into `1..=total`.
pub open spec fn clamp_rank(rank: nat, total: nat) -> nat {
    if rank < 1 {
        1
    } else if rank > total {
        total
    } else {
        rank
    }
}

/// `i` is the first bucket whose running total reaches `rank`.
pub open spec fn first_reaching(vals: Seq<nat>, rank: nat, i: int) -> bool {
    &&& 0 <= i < vals.len()
    &&& cumulative_at(vals, i) >= rank
    &&& forall|j: int| 0 <= j < i ==> #[trigger] cumulative_at(vals, j) < rank
}

/// Running totals never decrease along the buckets.
pub proof fn lemma_cumulative_monotone(vals: Seq<nat>, i: int, j: int)
    requires
        0 <= i <= j < vals.len(),
    ensures
        cumulative_at(vals, i) <= cumulative_at(vals, j),
{
    lemma_sum_take_monotone(vals, i + 1, j + 1);
}

/// The last running total is the saturating total.
pub proof fn lemma_last_cumulative(vals: Seq<nat>)
    requires
        vals.len() > 0,
    ensures
        cumulative_at(vals, vals.len() - 1) == sat_u64(sum_counts(vals)),
{
    assert(vals.take(vals.len() as int) =~= vals);
}

/// Recording never lowers the total and raises it by at most
/// the recorded count — by exactly that count unless the
/// bucket's counter saturates.
pub proof fn lemma_record_total(vals: Seq<nat>, i: int, by: nat, cap: nat)
    requires
        0 <= i < vals.len(),
        vals[i] <= cap,
    ensures
        sum_counts(vals) <= sum_counts(vals.update(i, sat_add_value(vals[i], by, cap))) <= sum_counts(
            vals,
        ) + by,
        vals[i] + by <= cap ==> sum_counts(vals.update(i, sat_add_value(vals[i], by, cap)))
            == sum_counts(vals) + by,
{
    lemma_sum_update(vals, i, sat_add_value(vals[i], by, cap));
}

/// Merging adds the totals: the merged counts sum to at least
/// the destination's total and at most both totals added —
/// exactly both totals added where no counter saturates.
pub proof fn lemma_merge_total(dst: Seq<nat>, src: Seq<nat>, cap: nat)
    requires
        dst.len() == src.len(),
        forall|i: int| 0 <= i < dst.len() ==> #[trigger] dst[i] <= cap,
    ensures
        sum_counts(dst) <= sum_counts(merged_counts(dst, src, cap)) <= sum_counts(dst) + sum_counts(
            src,
        ),
        (forall|i: int| 0 <= i < dst.len() ==> #[trigger] dst[i] + src[i] <= cap) ==> sum_counts(
            merged_counts(dst, src, cap),
        ) == sum_counts(dst) + sum_counts(src),
    decreases dst.len(),
{
    if dst.len() > 0 {
        let m = merged_counts(dst, src, cap);
        assert(m.drop_last() =~= merged_counts(dst.drop_last(), src.drop_last(), cap));
        lemma_merge_total(dst.drop_last(), src.drop_last(), cap);
        assert(m.last() == sat_add_value(dst.last(), src.last(), cap));
        assert(dst.last() == dst[dst.len() - 1]);
    }
}

/// Rank reads are monotone: a higher rank never reads a lower
/// bucket, so never a lower value.
pub proof fn lemma_rank_read_monotone(
    g: nat,
    n: nat,
    vals: Seq<nat>,
    r1: nat,
    r2: nat,
    i1: int,
    i2: int,
)
    requires
        valid_powers(g, n),
        vals.len() == buckets_of(g, n),
        r1 <= r2,
        first_reaching(vals, r1, i1),
        first_reaching(vals, r2, i2),
    ensures
        i1 <= i2,
        range_high(g, i1 as nat) <= range_high(g, i2 as nat),
{
    if i2 < i1 {
        assert(cumulative_at(vals, i2) < r1);
    }
    crate::config::lemma_range_high_monotone(g, n, i1 as nat, i2 as nat);
}

/// The counts an empty histogram holds after recording each of
/// `xs` once, in order, with no counter saturating.
pub open spec fn recorded_counts(g: nat, n: nat, xs: Seq<nat>) -> Seq<nat>
    decreases xs.len(),
{
    if xs.len() == 0 {
        Seq::new(buckets_of(g, n), |j: int| 0nat)
    } else {
        let prev = recorded_counts(g, n, xs.drop_last());
        let i = index_of(g, n, xs.last()) as int;
        prev.update(i, prev[i] + 1)
    }
}

/// How many of `xs` land at or below bucket `j`.
pub open spec fn hits_through(g: nat, n: nat, xs: Seq<nat>, j: nat) -> nat
    decreases xs.len(),
{
    if xs.len() == 0 {
        0
    } else {
        hits_through(g, n, xs.drop_last(), j) + if index_of(g, n, xs.last()) <= j {
            1nat
        } else {
            0nat
        }
    }
}

/// `xs` is in ascending order.
pub open spec fn ascending(xs: Seq<nat>) -> bool {
    forall|a: int, b: int| 0 <= a <= b < xs.len() ==> xs[a] <= xs[b]
}

/// Recording a value extends the recorded counts: where the
/// bucket's counter does not saturate, the update `record` makes
/// for `v` turns the counts of `xs` into the counts of `xs`
/// followed by `v`.
pub proof fn lemma_record_extends(g: nat, n: nat, xs: Seq<nat>, v: nat, cap: nat)
    requires
        valid_powers(g, n),
        recorded_counts(g, n, xs)[index_of(g, n, v) as int] + 1 <= cap,
    ensures
        recorded_counts(g, n, xs).update(
            index_of(g, n, v) as int,
            sat_add_value(recorded_counts(g, n, xs)[index_of(g, n, v) as int], 1, cap),
        ) == recorded_counts(g, n, xs.push(v)),
{
    assert(xs.push(v).drop_last() =~= xs);
}

/// The recorded counts have one entry per bucket, and their
/// running total through bucket `j` counts the values at or
/// below it.
proof fn lemma_recorded_prefix(g: nat, n: nat, xs: Seq<nat>, j: nat)
    requires
        valid_powers(g, n),
        j < buckets_of(g, n),
    ensures
        recorded_counts(g, n, xs).len() == buckets_of(g, n),
        sum_counts(recorded_counts(g, n, xs).take(j + 1 as int)) == hits_through(g, n, xs, j),
    decreases xs.len(),
{
    let rc = recorded_counts(g, n, xs);
    if xs.len() == 0 {
        assert(rc.take(j + 1 as int) =~= Seq::new(j + 1, |i: int| 0nat));
        crate::bands::lemma_zeros_sum(j + 1);
        return;
    }
    let prev = recorded_counts(g, n, xs.drop_last());
    let i = index_of(g, n, xs.last()) as int;
    lemma_recorded_prefix(g, n, xs.drop_last(), j);
    crate::config::lemma_index_below_total(g, n, xs.last());
    if i <= j {
        assert(rc.take(j + 1 as int) =~= prev.take(j + 1 as int).update(i, prev[i] + 1));
        lemma_sum_update(prev.take(j + 1 as int), i, prev[i] + 1);
    } else {
        assert(rc.take(j + 1 as int) =~= prev.take(j + 1 as int));
    }
}

/// In ascending values, the values at or below bucket `j` form
/// a prefix: the `k`-th value lies at or below `j` exactly when
/// more than `k` values do.
proof fn lemma_ascending_hits(g: nat, n: nat, xs: Seq<nat>, j: nat)
    requires
        valid_powers(g, n),
        ascending(xs),
    ensures
        hits_through(g, n, xs, j) <= xs.len(),
        forall|k: int|
            0 <= k < xs.len() && index_of(g, n, #[trigger] xs[k]) <= j ==> hits_through(g, n, xs, j)
                >= k + 1,
        forall|k: int|
            0 <= k < xs.len() && index_of(g, n, #[trigger] xs[k]) > j ==> hits_through(g, n, xs, j)
                <= k,
    decreases xs.len(),
{
    if xs.len() == 0 {
        return;
    }
    let prefix = xs.drop_last();
    let last_k = xs.len() - 1;
    assert(ascending(prefix));
    lemma_ascending_hits(g, n, prefix, j);
    assert(xs.last() == xs[last_k]);
    assert forall|k: int| 0 <= k < xs.len() && index_of(g, n, #[trigger] xs[k]) <= j implies hits_through(
        g,
        n,
        xs,
        j,
    ) >= k + 1 by {
        if k < last_k {
            assert(prefix[k] == xs[k]);
        } else {
            if last_k > 0 {
                crate::config::lemma_index_monotone(g, n, xs[last_k - 1], xs[last_k]);
                assert(prefix[last_k - 1] == xs[last_k - 1]);
            }
        }
    }
    assert forall|k: int| 0 <= k < xs.len() && index_of(g, n, #[trigger] xs[k]) > j implies hits_through(
        g,
        n,
        xs,
        j,
    ) <= k by {
        crate::config::lemma_index_monotone(g, n, xs[k], xs[last_k]);
        if k < last_k {
            assert(prefix[k] == xs[k]);
        }
    }
}

/// A rank read finds the recorded value: after recording the
/// ascending values `xs` into an empty histogram, the first
/// bucket whose running total reaches rank `r` (`1 <= r <=
/// xs.len()`) is the bucket of the `r`-th smallest value, so the
/// value read back, that bucket's upper bound, is at or above it
/// and within its bucket's range.
pub proof fn lemma_rank_read_finds_value(g: nat, n: nat, xs: Seq<nat>, r: nat, i: int)
    requires
        valid_powers(g, n),
        ascending(xs),
        1 <= r <= xs.len(),
        xs.len() <= u64::MAX,
        first_reaching(recorded_counts(g, n, xs), r, i),
    ensures
        i == index_of(g, n, xs[r - 1]),
        range_low(g, i as nat) <= clamp_value(n, xs[r - 1]) <= range_high(g, i as nat),
{
    let vals = recorded_counts(g, n, xs);
    let k0 = index_of(g, n, xs[r - 1]) as int;
    crate::config::lemma_index_below_total(g, n, xs[r - 1]);
    lemma_recorded_prefix(g, n, xs, k0 as nat);
    lemma_ascending_hits(g, n, xs, k0 as nat);
    assert(cumulative_at(vals, k0) >= r);
    if i < k0 {
        lemma_recorded_prefix(g, n, xs, i as nat);
        lemma_ascending_hits(g, n, xs, i as nat);
        assert(cumulative_at(vals, i) < r);
    } else if i > k0 {
        assert(cumulative_at(vals, k0) < r);
    }
    crate::config::lemma_value_in_its_bucket(g, n, xs[r - 1]);
}

/// A histogram's full bucket walk: bucket `i` for every `i`.
pub open spec fn walk_of(g: nat, vals: Seq<nat>) -> Seq<Bucket> {
    Seq::new(vals.len(), |i: int| bucket_at(g, vals, i))
}

/// A histogram's bucket walk is what a band table takes: where
/// the total fits in u64, the walk is consistent, its buckets
/// ascend in value, and it ends at the total.
pub proof fn lemma_walk_of_histogram(g: nat, n: nat, vals: Seq<nat>)
    requires
        valid_powers(g, n),
        vals.len() == buckets_of(g, n),
        sum_counts(vals) <= u64::MAX,
    ensures
        consistent_walk(walk_of(g, vals)),
        ascending_walk(walk_of(g, vals)),
        walk_end(walk_of(g, vals)) == sum_counts(vals),
{
    let w = walk_of(g, vals);
    let len = vals.len() as int;
    crate::config::lemma_valid_powers_facts(g, n);
    assert(vals.take(len) =~= vals);
    assert forall|k: int| 0 <= k < w.len() implies #[trigger] w[k].count <= w[k].cumulative
        && w[k].cumulative - w[k].count == if k == 0 {
        0
    } else {
        w[k - 1].cumulative as int
    } by {
        lemma_sum_take_step(vals, k);
        lemma_sum_take_monotone(vals, k + 1, len);
        if k == 0 {
            assert(vals.take(0) =~= Seq::<nat>::empty());
        }
    }
    assert forall|k: int| 0 <= k < w.len() implies #[trigger] w[k].low <= w[k].high by {
        crate::config::lemma_bucket_ends_index_back(g, n, k as nat);
    }
    assert forall|k: int, l: int|
        #![trigger w[k], w[l]]
        0 <= k < l < w.len() implies w[k].high < w[l].low by {
        crate::config::lemma_range_high_monotone(g, n, k as nat, (l - 1) as nat);
        crate::config::lemma_buckets_partition(g, n, (l - 1) as nat);
        crate::config::lemma_bucket_ends_index_back(g, n, k as nat);
        crate::config::lemma_bucket_ends_index_back(g, n, l as nat);
        crate::config::lemma_bucket_ends_index_back(g, n, (l - 1) as nat);
    }
    assert(w.last() == w[len - 1]);
}

/// Value at a rank: the upper bound of the first bucket whose
/// running total reaches `rank` clamped into `1..=total`;
/// `None` when nothing is recorded.
pub(crate) fn value_at_rank_of<Cnt: Counter>(config: &Config, counts: &[Cnt], rank: u64) -> (r:
    Option<u64>)
    requires
        valid_powers(config.g(), config.n()),
        counts@.len() == buckets_of(config.g(), config.n()),
    ensures
        sat_u64(sum_counts(count_values(counts@))) == 0 ==> r is None,
        sat_u64(sum_counts(count_values(counts@))) > 0 ==> exists|i: int|
            first_reaching(
                count_values(counts@),
                clamp_rank(rank as nat, sat_u64(sum_counts(count_values(counts@)))),
                i,
            ) && r == Some(range_high(config.g(), i as nat) as u64),
{
    let ghost vals = count_values(counts@);
    let total = crate::histogram::total_of(counts);
    if total == 0 {
        return None;
    }
    let target = if rank < 1 {
        1
    } else if rank > total {
        total
    } else {
        rank
    };
    let mut cumulative = 0u64;
    let mut index = 0usize;
    while index < counts.len()
        invariant
            vals == count_values(counts@),
            counts@.len() == buckets_of(config.g(), config.n()),
            valid_powers(config.g(), config.n()),
            index <= counts@.len(),
            cumulative == sat_u64(sum_counts(vals.take(index as int))),
            target == clamp_rank(rank as nat, total as nat),
            1 <= target <= total,
            total == sat_u64(sum_counts(vals)),
            forall|j: int| 0 <= j < index ==> #[trigger] cumulative_at(vals, j) < target,
        decreases counts@.len() - index,
    {
        proof {
            lemma_sum_take_step(vals, index as int);
            lemma_sat_step(sum_counts(vals.take(index as int)), vals[index as int]);
        }
        cumulative = cumulative.saturating_add(counts[index].to_u64());
        if cumulative >= target {
            proof {
                crate::config::lemma_bucket_ends_index_back(config.g(), config.n(), index as nat);
                crate::config::lemma_valid_powers_facts(config.g(), config.n());
                assert(first_reaching(vals, target as nat, index as int));
            }
            let (_, high) = config.value_range(index);
            return Some(high);
        }
        index += 1;
    }
    proof {
        lemma_last_cumulative(vals);
        crate::config::lemma_valid_powers_facts(config.g(), config.n());
        assert(cumulative_at(vals, vals.len() - 1) < target);
        assert(false);
    }
    None
}

/// The counts after a saturating merge of `src` into `dst`:
/// position `i` gains `src[i]` where `src` reaches that far.
pub open spec fn merged_counts(dst: Seq<nat>, src: Seq<nat>, cap: nat) -> Seq<nat> {
    Seq::new(
        dst.len(),
        |i: int|
            if i < src.len() {
                sat_add_value(dst[i], src[i], cap)
            } else {
                dst[i]
            },
    )
}

/// Merge `src` counts into `dst` (saturating); configs must
/// match (`Error::ConfigMismatch` otherwise, `dst` untouched).
pub(crate) fn merge_into<Cnt: Counter>(
    dst_config: &Config,
    dst_counts: &mut [Cnt],
    src_config: &Config,
    src_counts: &[Cnt],
) -> (r: Result<(), Error>)
    ensures
        r is Ok <==> *dst_config == *src_config,
        r matches Err(e) ==> e == Error::ConfigMismatch && final(dst_counts)@ == old(dst_counts)@,
        r is Ok ==> final(dst_counts)@.len() == old(dst_counts)@.len() && count_values(
            final(dst_counts)@,
        ) == merged_counts(count_values(old(dst_counts)@), count_values(src_counts@), Cnt::cap()),
{
    if *dst_config != *src_config {
        return Err(Error::ConfigMismatch);
    }
    let ghost old_vals = count_values(dst_counts@);
    let ghost src_vals = count_values(src_counts@);
    let n = if dst_counts.len() < src_counts.len() {
        dst_counts.len()
    } else {
        src_counts.len()
    };
    let mut i = 0usize;
    while i < n
        invariant
            n <= dst_counts@.len(),
            n <= src_counts@.len(),
            i <= n,
            dst_counts@.len() == old_vals.len(),
            src_vals == count_values(src_counts@),
            n == if old_vals.len() < src_vals.len() { old_vals.len() } else { src_vals.len() },
            forall|k: int|
                0 <= k < dst_counts@.len() ==> #[trigger] dst_counts@[k].value() == if k < i {
                    sat_add_value(old_vals[k], src_vals[k], Cnt::cap())
                } else {
                    old_vals[k]
                },
        decreases n - i,
    {
        let cnt = dst_counts[i];
        dst_counts[i] = cnt.sat_add(src_counts[i].to_u64());
        i += 1;
    }
    proof {
        assert(count_values(dst_counts@) =~= merged_counts(old_vals, src_vals, Cnt::cap()));
    }
    Ok(())
}

} // verus!
