//! The assembled band table — the structure a report renders.
//!
//! - `BandTable` holds the per-band accumulators of one bucket
//!   walk, all integers, no text.
//! - Fixed-capacity (`CAP` bands inline); `CAP` comes from a
//!   ladder's [`band_count`](Ladder::band_count), checked at
//!   build.
use vstd::prelude::*;
use vstd::slice::slice_subrange;
use crate::analysis::Bucket;
use crate::bands::{
    Band, BandAssign, Boundary, Ladder, assign_pass, band_counts, consistent_walk, empty_bands,
    ladder_at, ladder_len, lemma_fold_bounded, lemma_zeros_sum, mass_bounded, valid_depths,
    walk_end,
};
use crate::config::Error;
use crate::histogram::{sum_counts, lemma_element_le_sum};

verus! {

/// The first populated band below `k`, if any.
pub open spec fn first_populated(b: Seq<Band>, k: nat) -> Option<nat>
    decreases k,
{
    if k == 0 {
        None
    } else {
        match first_populated(b, (k - 1) as nat) {
            Some(i) => Some(i),
            None => if b[k - 1].count > 0 {
                Some((k - 1) as nat)
            } else {
                None
            },
        }
    }
}

/// The last populated band below `k`, if any.
pub open spec fn last_populated(b: Seq<Band>, k: nat) -> Option<nat>
    decreases k,
{
    if k == 0 {
        None
    } else if b[k - 1].count > 0 {
        Some((k - 1) as nat)
    } else {
        last_populated(b, (k - 1) as nat)
    }
}

/// Upper boundaries of the first and last populated bands below
/// the n2 cut (the bands capped by boundaries `1..=z + 9`).
pub open spec fn trim_extent(z: nat, n: nat, b: Seq<Band>) -> Option<(Boundary, Boundary)> {
    match (first_populated(b, z + 9), last_populated(b, z + 9)) {
        (Some(lo), Some(hi)) => Some(
            (ladder_at(z, n, lo + 1).unwrap(), ladder_at(z, n, hi + 1).unwrap()),
        ),
        _ => None,
    }
}

/// A ladder's bands assembled from one bucket walk.
///
/// - `bands()` — one [`Band`] per ladder band, ascending.
/// - `total()` — occurrences in the walk.
/// - `trim_range()` — the populated extent below the n2 cut.
#[derive(Debug, Clone, Copy)]
pub struct BandTable<const CAP: usize> {
    ladder: Ladder,
    total: u64,
    band_count: usize,
    bands: [Band; CAP],
}

impl<const CAP: usize> BandTable<CAP> {
    /// The ladder the table was assembled over.
    pub closed spec fn spec_ladder(self) -> Ladder {
        self.ladder
    }

    /// Total recorded occurrences.
    pub closed spec fn spec_total(self) -> nat {
        self.total as nat
    }

    /// The assembled bands, ascending.
    pub closed spec fn spec_bands(self) -> Seq<Band> {
        self.bands@.take(self.band_count as int)
    }

    #[verifier::type_invariant]
    closed spec fn fits(self) -> bool {
        &&& self.band_count == ladder_len(self.ladder.z(), self.ladder.n()) - 1
        &&& self.band_count <= CAP
    }

    /// Assemble a table: distribute the walk into bands with
    /// `assigner`; `Error::TableCapacity` when `CAP` is below the
    /// ladder's band count.
    pub fn build<Assigner: BandAssign>(ladder: Ladder, assigner: Assigner, buckets: &[Bucket]) -> (r:
        Result<BandTable<CAP>, Error>)
        requires
            consistent_walk(buckets@),
        ensures
            r is Ok <==> ladder_len(ladder.z(), ladder.n()) - 1 <= CAP,
            r matches Err(e) ==> e == Error::TableCapacity,
            r matches Ok(t) ==> t.spec_ladder() == ladder && t.spec_total() == walk_end(buckets@)
                && t.spec_bands().len() == ladder_len(ladder.z(), ladder.n()) - 1
                && sum_counts(band_counts(t.spec_bands())) <= walk_end(buckets@)
                && t.spec_bands() == assign_pass(
                assigner,
                walk_end(buckets@) as u64,
                ladder,
                empty_bands((ladder_len(ladder.z(), ladder.n()) - 1) as nat),
                buckets@,
            ).1,
    {
        let ghost start = assigner;
        let mut assigner = assigner;
        let band_count = ladder.band_count();
        if band_count > CAP {
            return Err(Error::TableCapacity);
        }

        // Total: the last bucket's cumulative count.
        let mut total = 0u64;
        let mut k: usize = 0;
        while k < buckets.len()
            invariant
                k <= buckets@.len(),
                total == walk_end(buckets@.take(k as int)),
            decreases buckets@.len() - k,
        {
            total = buckets[k].cumulative;
            k += 1;
        }
        proof {
            assert(buckets@.take(buckets@.len() as int) =~= buckets@);
        }

        // Assignment pass.
        let mut work: Vec<Band> = Vec::new();
        let mut j: usize = 0;
        while j < band_count
            invariant
                j <= band_count,
                work@ == empty_bands(j as nat),
            decreases band_count - j,
        {
            work.push(Band::default());
            j += 1;
            proof {
                assert(work@ =~= empty_bands(j as nat));
            }
        }
        proof {
            assert(band_counts(work@) =~= Seq::new(band_count as nat, |i: int| 0nat));
            lemma_zeros_sum(band_count as nat);
            assert(buckets@.take(0) =~= Seq::<Bucket>::empty());
        }
        let mut k: usize = 0;
        while k < buckets.len()
            invariant
                consistent_walk(buckets@),
                k <= buckets@.len(),
                total == walk_end(buckets@),
                work@.len() == band_count,
                band_count >= 12,
                band_count == ladder_len(ladder.z(), ladder.n()) - 1,
                sum_counts(band_counts(work@)) <= walk_end(buckets@.take(k as int)),
                forall|i: int| 0 <= i < work@.len() ==> mass_bounded(#[trigger] work@[i]),
                (assigner, work@) == assign_pass(
                    start,
                    total,
                    ladder,
                    empty_bands(band_count as nat),
                    buckets@.take(k as int),
                ),
            decreases buckets@.len() - k,
        {
            let bucket = buckets[k];
            proof {
                assert(buckets@.take(k + 1).drop_last() =~= buckets@.take(k as int));
                let prefix = buckets@.take(k as int);
                assert(bucket == buckets@[k as int]);
                assert(bucket.cumulative - bucket.count == walk_end(prefix)) by {
                    if k > 0 {
                        assert(prefix.last() == buckets@[k - 1]);
                    }
                }
                assert(buckets@.take(k + 1).last() == bucket);
                lemma_walk_end_bounded(buckets@, (k + 1) as int);
                assert forall|i: int| 0 <= i < work@.len() implies #[trigger] work@[i].count
                    + bucket.count <= u64::MAX && work@[i].low_mass + bucket.count * bucket.low
                    <= u128::MAX && work@[i].high_mass + bucket.count * bucket.high
                    <= u128::MAX by {
                    lemma_element_le_sum(band_counts(work@), i);
                    assert(mass_bounded(work@[i]));
                    lemma_fold_bounded(work@[i], bucket.low, bucket.high, bucket.count as nat);
                }
            }
            assigner.assign(&bucket, total, &ladder, work.as_mut_slice());
            k += 1;
        }
        proof {
            assert(buckets@.take(buckets@.len() as int) =~= buckets@);
        }

        let mut bands = [Band::default(); CAP];
        let mut i: usize = 0;
        while i < band_count
            invariant
                i <= band_count <= CAP,
                work@.len() == band_count,
                forall|q: int| 0 <= q < i ==> #[trigger] bands@[q] == work@[q],
            decreases band_count - i,
        {
            bands[i] = work[i];
            i += 1;
        }
        let table = BandTable { ladder, total, band_count, bands };
        proof {
            assert(table.spec_bands() =~= work@);
        }
        Ok(table)
    }

    /// The ladder this table was assembled over.
    pub fn ladder(&self) -> (r: Ladder)
        ensures
            r == self.spec_ladder(),
    {
        self.ladder
    }

    /// Total recorded occurrences.
    pub fn total(&self) -> (r: u64)
        ensures
            r == self.spec_total(),
    {
        self.total
    }

    /// The assembled bands, ascending — `ladder().band_count()`
    /// entries.
    pub fn bands(&self) -> (r: &[Band])
        ensures
            r@ == self.spec_bands(),
            r@.len() == ladder_len(self.spec_ladder().z(), self.spec_ladder().n()) - 1,
    {
        proof {
            use_type_invariant(self);
        }
        slice_subrange(self.bands.as_slice(), 0, self.band_count)
    }

    /// Upper boundaries of the first and last populated bands
    /// below the n2 tail cut (the bands capped by boundaries
    /// `1..=z_depth + 9`) — the `z4..n2`-style trim label extent.
    /// `None` when nothing below the cut is populated.
    pub fn trim_range(&self) -> (r: Option<(Boundary, Boundary)>)
        ensures
            r == trim_extent(self.spec_ladder().z(), self.spec_ladder().n(), self.spec_bands()),
            ({
                let z = self.spec_ladder().z();
                let n = self.spec_ladder().n();
                let b = self.spec_bands();
                let cut = z + 9;
                &&& r is None <==> forall|i: int| 0 <= i < cut ==> #[trigger] b[i].count == 0
                &&& r matches Some((lo_b, hi_b)) ==> exists|lo: int, hi: int|
                    0 <= lo <= hi < cut && b[lo].count > 0 && b[hi].count > 0 && (forall|i: int|
                        0 <= i < lo ==> #[trigger] b[i].count == 0) && (forall|i: int|
                        hi < i < cut ==> #[trigger] b[i].count == 0) && Some(lo_b) == ladder_at(
                        z,
                        n,
                        (lo + 1) as nat,
                    ) && Some(hi_b) == ladder_at(z, n, (hi + 1) as nat)
            }),
    {
        proof {
            use_type_invariant(self);
        }
        let ghost b = self.spec_bands();
        // N(2) sits at ladder index z_depth + 9; bands below the
        // cut are those capped by boundaries 1..=that.
        let trim_bands = self.ladder.z_depth() as usize + 9;
        let mut first: Option<usize> = None;
        let mut last: Option<usize> = None;
        let mut index: usize = 0;
        while index < trim_bands
            invariant
                trim_bands == self.spec_ladder().z() + 9,
                trim_bands <= self.band_count,
                self.band_count <= CAP,
                b == self.spec_bands(),
                b.len() == self.band_count,
                index <= trim_bands,
                first is None <==> forall|i: int| 0 <= i < index ==> #[trigger] b[i].count == 0,
                first is None <==> last is None,
                first is None <==> first_populated(b, index as nat) is None,
                first matches Some(lo) ==> first_populated(b, index as nat) == Some(lo as nat),
                last is None <==> last_populated(b, index as nat) is None,
                last matches Some(hi) ==> last_populated(b, index as nat) == Some(hi as nat),
                first matches Some(lo) ==> lo <= last.unwrap() < index && b[lo as int].count > 0
                    && b[last.unwrap() as int].count > 0 && (forall|i: int|
                    0 <= i < lo ==> #[trigger] b[i].count == 0) && (forall|i: int|
                    last.unwrap() < i < index ==> #[trigger] b[i].count == 0),
            decreases trim_bands - index,
        {
            if self.bands[index].count > 0 {
                if first.is_none() {
                    first = Some(index);
                }
                last = Some(index);
            }
            index += 1;
        }
        match (first, last) {
            (Some(lo), Some(hi)) => {
                let lo_boundary = self.ladder.get(lo + 1)?;
                let hi_boundary = self.ladder.get(hi + 1)?;
                Some((lo_boundary, hi_boundary))
            },
            _ => None,
        }
    }
}

/// A consistent walk's running totals never decrease, so every
/// prefix ends at or below the whole walk's end.
proof fn lemma_walk_end_bounded(buckets: Seq<Bucket>, k: int)
    requires
        consistent_walk(buckets),
        0 <= k <= buckets.len(),
    ensures
        walk_end(buckets.take(k)) <= walk_end(buckets),
    decreases buckets.len() - k,
{
    if k < buckets.len() {
        lemma_walk_end_bounded(buckets, k + 1);
        assert(buckets.take(k + 1).last() == buckets[k]);
        assert(buckets[k].count <= buckets[k].cumulative);
        if k > 0 {
            assert(buckets.take(k).last() == buckets[k - 1]);
        }
    } else {
        assert(buckets.take(k) =~= buckets);
    }
}

} // verus!
