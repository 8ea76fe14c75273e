//! `no_std`-style, no-alloc-core, HdrHistogram-style log-linear
//! histogram with verified index math.
//!
//! - h2 parameterization `(grouping_power, max_value_power)`:
//!   relative error ≤ 2⁻ᵍ, max value 2ⁿ−1, integer-only record
//!   path (clz + shift + saturating increment).
//! - The core borrows caller-supplied counts storage; analysis
//!   (rank lookups, merge, bucket walks) stays off the hot path.
//! - Band reports: the z/p/n boundary ladder, two band
//!   assignment conventions, the assembled band table, and the
//!   boundary labels.
#![allow(unused_imports)]

use vstd::prelude::*;

pub mod analysis;
pub mod array;
pub mod bands;
pub mod bitmath;
pub mod config;
pub mod counter;
pub mod histogram;
pub mod numfmt;
pub mod render;
pub mod report;
pub mod rng;
pub mod stream;
pub mod table;

pub use analysis::{Bucket, Buckets, window_count};
pub use array::HistogramArray;
pub use bands::{Band, BandAssign, Boundary, Ladder, LadderIter, MidRank, RankSplit};
pub use config::{Config, Error};
pub use counter::Counter;
pub use histogram::Histogram;
pub use numfmt::fmt_commas;
pub use render::{Layout, StatCells, render_band_table};
pub use report::{BandLabels, boundary_label, frac_label, summary_label, trim_name, zpn_label};
pub use rng::SplitMix64;
pub use stream::HeavyTailed;
pub use table::BandTable;
