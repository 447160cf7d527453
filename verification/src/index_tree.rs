//! Time-sharded index tree: decomposition of a timestamp into an ordered
//! list of coarse-to-fine index segments.
//!
//! For each granularity enabled in the configuration, in fixed
//! coarse-to-fine order, the input time is truncated to that unit and the
//! result appended; a rounded chunk leaf can follow, bounding leaf
//! fan-out within the finest configured granularity bucket.

use vstd::prelude::*;
use vstd::arithmetic::div_mod::lemma_fundamental_div_mod;
use vstd::arithmetic::div_mod::lemma_mod_bound;
use vstd::arithmetic::div_mod::lemma_mod_multiples_basic;
use vstd::arithmetic::mul::lemma_mul_is_commutative;

use crate::civil::CivilTime;
use crate::civil::civil_millis;
use crate::civil::civil_time_millis;
use crate::civil::lemma_days_before_month_mono;

verus! {

/// A calendar truncation unit for a level of the index tree.
#[derive(Clone, Copy, Debug, PartialEq, Eq, Structural)]
pub enum IndexType {
    Year,
    Month,
    Day,
    Hour,
    Minute,
    Second,
}

/// Which granularities the index tree keeps, from coarse to fine, with
/// the width of the optional chunk leaves under the finest one.
#[derive(Clone, Copy, Debug, PartialEq, Eq, Structural)]
pub struct IndexConfig {
    pub year: bool,
    pub month: bool,
    pub day: bool,
    pub hour: bool,
    pub minute: bool,
    pub second: bool,
    /// Width of a chunk leaf in milliseconds.
    pub chunk_interval_ms: u64,
    /// Whether a rounded chunk leaf follows the truncated segments.
    pub has_chunk_leaves: bool,
}

impl IndexConfig {
    /// At least one granularity is enabled.
    pub open spec fn any_enabled(&self) -> bool {
        self.year || self.month || self.day || self.hour || self.minute || self.second
    }
}

/// An index segment: an unsigned millisecond timestamp, truncated to a
/// configured granularity or rounded to a fixed chunk interval.
#[derive(Clone, Copy, Debug, PartialEq, Eq, Structural)]
pub struct IndexSegment(u64);

/// Truncation of a civil time to a granularity: all finer calendar
/// components are reset to their lowest value.
pub open spec fn truncate_spec(t: CivilTime, g: IndexType) -> CivilTime {
    match g {
        IndexType::Year => CivilTime { month: 1, day: 1, hour: 0, minute: 0, second: 0, milli: 0, ..t },
        IndexType::Month => CivilTime { day: 1, hour: 0, minute: 0, second: 0, milli: 0, ..t },
        IndexType::Day => CivilTime { hour: 0, minute: 0, second: 0, milli: 0, ..t },
        IndexType::Hour => CivilTime { minute: 0, second: 0, milli: 0, ..t },
        IndexType::Minute => CivilTime { second: 0, milli: 0, ..t },
        IndexType::Second => CivilTime { milli: 0, ..t },
    }
}

/// Truncate a civil time to a granularity.
pub fn truncate(t: &CivilTime, g: &IndexType) -> (r: CivilTime)
    ensures
        r == truncate_spec(*t, *g),
{
    match g {
        IndexType::Year => CivilTime { month: 1, day: 1, hour: 0, minute: 0, second: 0, milli: 0, ..*t },
        IndexType::Month => CivilTime { day: 1, hour: 0, minute: 0, second: 0, milli: 0, ..*t },
        IndexType::Day => CivilTime { hour: 0, minute: 0, second: 0, milli: 0, ..*t },
        IndexType::Hour => CivilTime { minute: 0, second: 0, milli: 0, ..*t },
        IndexType::Minute => CivilTime { second: 0, milli: 0, ..*t },
        IndexType::Second => CivilTime { milli: 0, ..*t },
    }
}

/// Truncating a civil time to a granularity twice yields the same value
/// as truncating it once, for every granularity.
pub proof fn lemma_truncate_idempotent(t: CivilTime, g: IndexType)
    ensures
        truncate_spec(truncate_spec(t, g), g) == truncate_spec(t, g),
{
}

/// Truncation keeps the civil time well formed and never moves it
/// forward: the truncated moment's millisecond count is at most the
/// original one's.
pub proof fn lemma_truncate_le(t: CivilTime, g: IndexType)
    requires
        t.wf(),
    ensures
        truncate_spec(t, g).wf(),
        civil_millis(truncate_spec(t, g)) <= civil_millis(t),
{
    lemma_days_before_month_mono(t.year as int, 1, t.month as int);
}

/// Position of a granularity in the fixed coarse-to-fine order.
pub open spec fn rank(g: IndexType) -> int {
    match g {
        IndexType::Year => 0,
        IndexType::Month => 1,
        IndexType::Day => 2,
        IndexType::Hour => 3,
        IndexType::Minute => 4,
        IndexType::Second => 5,
    }
}

/// Truncating to a coarser granularity never yields a later moment:
/// the truncations of one civil time, taken coarse to fine, are
/// non-decreasing.
pub proof fn lemma_truncate_order(t: CivilTime, coarse: IndexType, fine: IndexType)
    requires
        t.wf(),
        rank(coarse) <= rank(fine),
    ensures
        civil_millis(truncate_spec(t, coarse)) <= civil_millis(truncate_spec(t, fine)),
{
    let tf = truncate_spec(t, fine);
    lemma_truncate_le(t, fine);
    lemma_truncate_le(tf, coarse);
    assert(truncate_spec(tf, coarse) == truncate_spec(t, coarse));
}

/// The start of the fixed-width chunk containing `from`, within the
/// bucket starting at `base`.
pub open spec fn chunk_spec(base: int, from: int, interval: int) -> int {
    base + ((from - base) / interval) * interval
}

impl IndexSegment {
    /// The raw millisecond timestamp of this segment.
    pub closed spec fn spec_timestamp(&self) -> u64 {
        self.0
    }

    /// Generate an index segment by truncating the given civil time to
    /// the given `granularity`.
    pub fn new(from: &CivilTime, granularity: &IndexType) -> (r: Self)
        requires
            from.wf(),
        ensures
            r.spec_timestamp() as int == civil_millis(truncate_spec(*from, *granularity)),
    {
        let truncated = truncate(from, granularity);
        proof {
            lemma_truncate_le(*from, *granularity);
        }
        IndexSegment(civil_time_millis(&truncated))
    }

    /// Generate an index segment corresponding to the closest leaf chunk
    /// at or before the given time: `based_off` plus the largest multiple
    /// of `chunk_interval_ms` that does not pass the time.
    pub fn new_chunk(based_off: u64, from: &CivilTime, chunk_interval_ms: u64) -> (r: Self)
        requires
            from.wf(),
            chunk_interval_ms > 0,
            based_off as int <= civil_millis(*from),
        ensures
            r.spec_timestamp() as int == chunk_spec(
                based_off as int,
                civil_millis(*from),
                chunk_interval_ms as int,
            ),
            based_off <= r.spec_timestamp(),
            r.spec_timestamp() as int <= civil_millis(*from),
            (r.spec_timestamp() - based_off) % (chunk_interval_ms as int) == 0,
    {
        let from_millis = civil_time_millis(from);
        let diff = from_millis - based_off;
        proof {
            let q = diff as int / chunk_interval_ms as int;
            let c = chunk_interval_ms as int;
            lemma_fundamental_div_mod(diff as int, c);
            lemma_mod_bound(diff as int, c);
            lemma_mod_multiples_basic(q, c);
            lemma_mul_is_commutative(q, c);
            assert(q * c <= diff as int);
        }
        let rounded = (diff / chunk_interval_ms) * chunk_interval_ms;
        IndexSegment(based_off + rounded)
    }

    /// Generate a virtual index segment for an exact time, used only as
    /// the terminal link connecting the index tree to the indexed record.
    pub fn leafmost_link(from: &CivilTime) -> (r: Self)
        requires
            from.wf(),
        ensures
            r.spec_timestamp() as int == civil_millis(*from),
    {
        IndexSegment(civil_time_millis(from))
    }

    /// An index segment holding the raw millisecond timestamp `ms`.
    pub(crate) fn from_millis(ms: u64) -> (r: Self)
        ensures
            r.spec_timestamp() == ms,
    {
        IndexSegment(ms)
    }

    /// Clone the `IndexSegment`.
    pub fn cloned(&self) -> (r: Self)
        ensures
            r == *self,
    {
        IndexSegment(self.0)
    }

    /// Return the raw timestamp of this `IndexSegment`.
    pub fn timestamp(&self) -> (r: u64)
        ensures
            r == self.spec_timestamp(),
    {
        self.0
    }
}

/// The ordered list of segment timestamps for `t` under `cfg`: one
/// truncated timestamp per enabled granularity, coarse to fine, then a
/// chunk leaf when the configuration asks for one.
pub open spec fn segments_spec(t: CivilTime, cfg: IndexConfig) -> Seq<int> {
    let main = main_segments_spec(t, cfg);
    if cfg.has_chunk_leaves && main.len() > 0 {
        main.push(chunk_spec(main.last(), civil_millis(t), cfg.chunk_interval_ms as int))
    } else {
        main
    }
}

/// The truncated (non-chunk) segment timestamps for `t` under `cfg`.
pub open spec fn main_segments_spec(t: CivilTime, cfg: IndexConfig) -> Seq<int> {
    let s0 = Seq::<int>::empty();
    let s1 = if cfg.year {
        s0.push(civil_millis(truncate_spec(t, IndexType::Year)))
    } else {
        s0
    };
    let s2 = if cfg.month {
        s1.push(civil_millis(truncate_spec(t, IndexType::Month)))
    } else {
        s1
    };
    let s3 = if cfg.day {
        s2.push(civil_millis(truncate_spec(t, IndexType::Day)))
    } else {
        s2
    };
    let s4 = if cfg.hour {
        s3.push(civil_millis(truncate_spec(t, IndexType::Hour)))
    } else {
        s3
    };
    let s5 = if cfg.minute {
        s4.push(civil_millis(truncate_spec(t, IndexType::Minute)))
    } else {
        s4
    };
    if cfg.second {
        s5.push(civil_millis(truncate_spec(t, IndexType::Second)))
    } else {
        s5
    }
}

/// Generate the list of `IndexSegment` representing the nodes of the
/// radix trie path for the given `time`: the segments come in order of
/// granularity, least granular first, with a chunk leaf last when the
/// configuration asks for one.
#[verifier::rlimit(60)]
pub fn get_index_segments(time: &CivilTime, cfg: &IndexConfig) -> (r: Vec<IndexSegment>)
    requires
        time.wf(),
        cfg.has_chunk_leaves ==> cfg.any_enabled() && cfg.chunk_interval_ms > 0,
    ensures
        r@.map_values(|s: IndexSegment| s.spec_timestamp() as int) == segments_spec(*time, *cfg),
        forall|i: int, j: int|
            0 <= i <= j < r@.len() ==> r@[i].spec_timestamp() <= r@[j].spec_timestamp(),
        forall|i: int| 0 <= i < r@.len() ==> r@[i].spec_timestamp() as int <= civil_millis(*time),
{
    let mut segments: Vec<IndexSegment> = Vec::new();
    proof {
        lemma_truncate_order(*time, IndexType::Year, IndexType::Month);
        lemma_truncate_order(*time, IndexType::Year, IndexType::Day);
        lemma_truncate_order(*time, IndexType::Year, IndexType::Hour);
        lemma_truncate_order(*time, IndexType::Year, IndexType::Minute);
        lemma_truncate_order(*time, IndexType::Year, IndexType::Second);
        lemma_truncate_order(*time, IndexType::Month, IndexType::Day);
        lemma_truncate_order(*time, IndexType::Month, IndexType::Hour);
        lemma_truncate_order(*time, IndexType::Month, IndexType::Minute);
        lemma_truncate_order(*time, IndexType::Month, IndexType::Second);
        lemma_truncate_order(*time, IndexType::Day, IndexType::Hour);
        lemma_truncate_order(*time, IndexType::Day, IndexType::Minute);
        lemma_truncate_order(*time, IndexType::Day, IndexType::Second);
        lemma_truncate_order(*time, IndexType::Hour, IndexType::Minute);
        lemma_truncate_order(*time, IndexType::Hour, IndexType::Second);
        lemma_truncate_order(*time, IndexType::Minute, IndexType::Second);
    }

    if cfg.year {
        segments.push(IndexSegment::new(time, &IndexType::Year));
        proof {
            lemma_truncate_le(*time, IndexType::Year);
        }
    }
    if cfg.month {
        segments.push(IndexSegment::new(time, &IndexType::Month));
        proof {
            lemma_truncate_le(*time, IndexType::Month);
        }
    }
    if cfg.day {
        segments.push(IndexSegment::new(time, &IndexType::Day));
        proof {
            lemma_truncate_le(*time, IndexType::Day);
        }
    }
    if cfg.hour {
        segments.push(IndexSegment::new(time, &IndexType::Hour));
        proof {
            lemma_truncate_le(*time, IndexType::Hour);
        }
    }
    if cfg.minute {
        segments.push(IndexSegment::new(time, &IndexType::Minute));
        proof {
            lemma_truncate_le(*time, IndexType::Minute);
        }
    }
    if cfg.second {
        segments.push(IndexSegment::new(time, &IndexType::Second));
        proof {
            lemma_truncate_le(*time, IndexType::Second);
        }
    }

    proof {
        assert(segments@.map_values(|s: IndexSegment| s.spec_timestamp() as int)
            =~= main_segments_spec(*time, *cfg));
    }

    if cfg.has_chunk_leaves {
        let base = segments[segments.len() - 1].timestamp();
        segments.push(IndexSegment::new_chunk(base, time, cfg.chunk_interval_ms));
    }

    proof {
        assert(segments@.map_values(|s: IndexSegment| s.spec_timestamp() as int)
            =~= segments_spec(*time, *cfg));
    }

    segments
}

} // verus!
