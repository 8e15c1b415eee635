//! An explicitly constructed metrics context, created once at startup and
//! passed by reference into each component — no process-wide lazily
//! initialized registry. Counters never wrap: at the top of their range
//! they stay put. The latency histogram has the fixed bucket bounds
//! {1, 5, 10, 25, 50, 100, 250, 500, 1000, 2500, 5000, 10000}
//! microseconds, plus an overflow bin.

use vstd::prelude::*;

use crate::bump;

verus! {

/// Twelve bounded bins and one overflow bin.
pub const LATENCY_BUCKETS: usize = 13;

/// The upper bound of bin `i`, in microseconds.
pub open spec fn bucket_bound(i: int) -> int {
    if i == 0 {
        1
    } else if i == 1 {
        5
    } else if i == 2 {
        10
    } else if i == 3 {
        25
    } else if i == 4 {
        50
    } else if i == 5 {
        100
    } else if i == 6 {
        250
    } else if i == 7 {
        500
    } else if i == 8 {
        1000
    } else if i == 9 {
        2500
    } else if i == 10 {
        5000
    } else {
        10000
    }
}

/// The bin an observation falls in: the first bound at or above it, or
/// the overflow bin. Negative latencies (clock skew) land in the first
/// bin.
pub open spec fn bucket_index(v: int) -> int {
    if v <= 1 {
        0
    } else if v <= 5 {
        1
    } else if v <= 10 {
        2
    } else if v <= 25 {
        3
    } else if v <= 50 {
        4
    } else if v <= 100 {
        5
    } else if v <= 250 {
        6
    } else if v <= 500 {
        7
    } else if v <= 1000 {
        8
    } else if v <= 2500 {
        9
    } else if v <= 5000 {
        10
    } else if v <= 10000 {
        11
    } else {
        12
    }
}

/// Truncated signed division (toward zero), the conventional rounding of
/// a mean.
pub open spec fn div_trunc(a: int, b: int) -> int {
    if a >= 0 {
        a / b
    } else {
        -((-a) / b)
    }
}

fn div_trunc_exec(a: i128, b: i128) -> (r: i128)
    requires
        b > 0,
    ensures
        r as int == div_trunc(a as int, b as int),
{
    if a >= 0 {
        let q: u128 = (a as u128) / (b as u128);
        proof {
            vstd::arithmetic::div_mod::lemma_div_nonincreasing(a as int, b as int);
            vstd::arithmetic::div_mod::lemma_div_pos_is_pos(a as int, b as int);
        }
        q as i128
    } else {
        let mag: u128 = if a == i128::MIN {
            170141183460469231731687303715884105728u128
        } else {
            (-a) as u128
        };
        let q: u128 = mag / (b as u128);
        proof {
            assert(mag as int == -(a as int));
            vstd::arithmetic::div_mod::lemma_div_nonincreasing(mag as int, b as int);
            vstd::arithmetic::div_mod::lemma_div_pos_is_pos(mag as int, b as int);
        }
        if q > i128::MAX as u128 {
            proof {
                assert(q == 170141183460469231731687303715884105728);
            }
            i128::MIN
        } else {
            -(q as i128)
        }
    }
}

/// Saturating signed accumulation.
pub open spec fn sat_add(a: int, b: int) -> int {
    if a + b > i128::MAX {
        i128::MAX as int
    } else if a + b < i128::MIN {
        i128::MIN as int
    } else {
        a + b
    }
}

/// A histogram of tick latencies over the fixed bucket bounds.
pub struct LatencyHistogram {
    bins: Vec<u64>,
    count: u64,
    sum_micros: i128,
}

impl LatencyHistogram {
    pub closed spec fn wf(&self) -> bool {
        self.bins@.len() == LATENCY_BUCKETS
    }

    pub closed spec fn bins_view(&self) -> Seq<u64> {
        self.bins@
    }

    pub closed spec fn count_view(&self) -> u64 {
        self.count
    }

    pub closed spec fn sum_view(&self) -> int {
        self.sum_micros as int
    }

    pub fn new() -> (r: Self)
        ensures
            r.wf(),
            r.bins_view() =~= Seq::<u64>::new(LATENCY_BUCKETS as nat, |i: int| 0u64),
            r.count_view() == 0,
            r.sum_view() == 0,
    {
        let mut bins: Vec<u64> = Vec::new();
        let mut i: usize = 0;
        while i < LATENCY_BUCKETS
            invariant
                i <= LATENCY_BUCKETS,
                bins@.len() == i,
                forall|k: int| 0 <= k < i ==> bins@[k] == 0,
            decreases LATENCY_BUCKETS - i,
        {
            bins.push(0);
            i += 1;
        }
        let r = LatencyHistogram { bins, count: 0, sum_micros: 0 };
        proof {
            assert(r.bins_view() =~= Seq::<u64>::new(LATENCY_BUCKETS as nat, |i: int| 0u64));
        }
        r
    }

    /// Records one latency observation in its bin; the observation count
    /// and the running sum follow, saturating at their range.
    pub fn observe(&mut self, latency_micros: i128)
        requires
            old(self).wf(),
        ensures
            final(self).wf(),
            final(self).bins_view() == old(self).bins_view().update(
                bucket_index(latency_micros as int),
                bump(old(self).bins_view()[bucket_index(latency_micros as int)]),
            ),
            final(self).count_view() == bump(old(self).count_view()),
            final(self).sum_view() == sat_add(old(self).sum_view(), latency_micros as int),
    {
        let idx: usize = if latency_micros <= 1 {
            0
        } else if latency_micros <= 5 {
            1
        } else if latency_micros <= 10 {
            2
        } else if latency_micros <= 25 {
            3
        } else if latency_micros <= 50 {
            4
        } else if latency_micros <= 100 {
            5
        } else if latency_micros <= 250 {
            6
        } else if latency_micros <= 500 {
            7
        } else if latency_micros <= 1000 {
            8
        } else if latency_micros <= 2500 {
            9
        } else if latency_micros <= 5000 {
            10
        } else if latency_micros <= 10000 {
            11
        } else {
            12
        };
        let cur = self.bins[idx];
        let next = if cur < u64::MAX {
            cur + 1
        } else {
            cur
        };
        self.bins[idx] = next;
        self.count = if self.count < u64::MAX {
            self.count + 1
        } else {
            self.count
        };
        self.sum_micros = match self.sum_micros.checked_add(latency_micros) {
            Some(s) => s,
            None => if latency_micros > 0 {
                i128::MAX
            } else {
                i128::MIN
            },
        };
    }
}

/// The counters and the latency histogram the pipeline maintains.
pub struct MetricsContext {
    pub ticks_received: u64,
    pub signals_generated: u64,
    pub orders_sent: u64,
    pub latency: LatencyHistogram,
}

/// The one-time construction of the metrics context, at process start.
pub fn init_metrics() -> (r: MetricsContext)
    ensures
        r.ticks_received == 0,
        r.signals_generated == 0,
        r.orders_sent == 0,
        r.latency.wf(),
        r.latency.count_view() == 0,
        r.latency.sum_view() == 0,
        r.latency.bins_view() =~= Seq::<u64>::new(LATENCY_BUCKETS as nat, |i: int| 0u64),
{
    MetricsContext {
        ticks_received: 0,
        signals_generated: 0,
        orders_sent: 0,
        latency: LatencyHistogram::new(),
    }
}

impl MetricsContext {
    pub fn inc_ticks_received(&mut self)
        ensures
            final(self).ticks_received == bump(old(self).ticks_received),
            final(self).signals_generated == old(self).signals_generated,
            final(self).orders_sent == old(self).orders_sent,
            final(self).latency == old(self).latency,
    {
        self.ticks_received = if self.ticks_received < u64::MAX {
            self.ticks_received + 1
        } else {
            self.ticks_received
        };
    }

    pub fn inc_signals_generated(&mut self)
        ensures
            final(self).signals_generated == bump(old(self).signals_generated),
            final(self).ticks_received == old(self).ticks_received,
            final(self).orders_sent == old(self).orders_sent,
            final(self).latency == old(self).latency,
    {
        self.signals_generated = if self.signals_generated < u64::MAX {
            self.signals_generated + 1
        } else {
            self.signals_generated
        };
    }

    pub fn inc_orders_sent(&mut self)
        ensures
            final(self).orders_sent == bump(old(self).orders_sent),
            final(self).ticks_received == old(self).ticks_received,
            final(self).signals_generated == old(self).signals_generated,
            final(self).latency == old(self).latency,
    {
        self.orders_sent = if self.orders_sent < u64::MAX {
            self.orders_sent + 1
        } else {
            self.orders_sent
        };
    }
}

/// A point-in-time summary for a dashboard. The percentiles are the
/// demo's fixed approximations from the mean, stated exactly: p50 is
/// four fifths of the mean, p99 the mean and a half.
pub struct MetricsSnapshot {
    pub ticks_received: u64,
    pub orders_placed: u64,
    pub latency_mean_micros: i128,
    pub latency_p50_micros: i128,
    pub latency_p99_micros: i128,
    pub timestamp_secs: u64,
}

impl MetricsSnapshot {
    /// Folds the context into a snapshot at the given wall-clock second.
    /// A histogram with no observations has a zero mean — a defined
    /// value, not an error.
    pub fn capture(ctx: &MetricsContext, timestamp_secs: u64) -> (r: MetricsSnapshot)
        requires
            ctx.latency.wf(),
        ensures
            r.ticks_received == ctx.ticks_received,
            r.orders_placed == ctx.orders_sent,
            r.latency_mean_micros as int == (if ctx.latency.count_view() == 0 {
                0int
            } else {
                div_trunc(ctx.latency.sum_view(), ctx.latency.count_view() as int)
            }),
            r.latency_p50_micros as int == div_trunc(r.latency_mean_micros as int, 5) * 4,
            r.latency_p99_micros as int == sat_add(
                r.latency_mean_micros as int,
                div_trunc(r.latency_mean_micros as int, 2),
            ),
            r.timestamp_secs == timestamp_secs,
    {
        let count = ctx.latency.count();
        let sum = ctx.latency.sum();
        let mean: i128 = if count == 0 {
            0
        } else {
            div_trunc_exec(sum, count as i128)
        };
        let fifth = div_trunc_exec(mean, 5);
        proof {
            assert(-(i128::MAX as int) / 5 * 4 >= i128::MIN);
        }
        let p50: i128 = fifth * 4;
        let half = div_trunc_exec(mean, 2);
        let p99: i128 = match mean.checked_add(half) {
            Some(v) => v,
            None => if mean > 0 {
                i128::MAX
            } else {
                i128::MIN
            },
        };
        MetricsSnapshot {
            ticks_received: ctx.ticks_received,
            orders_placed: ctx.orders_sent,
            latency_mean_micros: mean,
            latency_p50_micros: p50,
            latency_p99_micros: p99,
            timestamp_secs,
        }
    }
}

impl LatencyHistogram {
    /// How many observations the histogram holds.
    pub fn count(&self) -> (r: u64)
        ensures
            r == self.count_view(),
    {
        self.count
    }

    /// The saturating sum of all observations, in microseconds.
    pub fn sum(&self) -> (r: i128)
        ensures
            r as int == self.sum_view(),
    {
        self.sum_micros
    }

    /// The observation count of one bin.
    pub fn bin(&self, i: usize) -> (r: u64)
        requires
            self.wf(),
            i < LATENCY_BUCKETS,
        ensures
            r == self.bins_view()[i as int],
    {
        self.bins[i]
    }
}

} // verus!
