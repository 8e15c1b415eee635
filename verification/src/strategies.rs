//! Pluggable trading strategies: a closed sum over three reference
//! variants, each owning isolated mutable state and consuming enriched
//! ticks strictly in arrival order.
//!
//! All prices are fixed-point units. The mean-reversion z-score test is
//! carried out exactly in integers: with a window `w` of `n` prices summing
//! to `S`, the deviation `d = n·p − S` and the deviation-square sum
//! `V = Σ (n·w[i] − S)²`, the float comparison `|z| > t/100` becomes
//! `n·d²·100² > t²·V`, which needs no square root and no division.

use vstd::prelude::*;

use crate::EnrichedTick;
use crate::MAX_PRICE_UNITS;
use crate::OrderSide;
use crate::SignalType;
use crate::TickModel;
use crate::TradingSignal;
use crate::bytes_eq;
use crate::copy_bytes;

verus! {

/// Most observations a mean-reversion window may be configured to hold;
/// keeps the deviation sums inside `u128`.
pub const MAX_WINDOW: usize = 100;

/// Largest std-dev multiplier, in hundredths (a threshold of 100 standard
/// deviations).
pub const MAX_THRESHOLD_CENTI: u64 = 10000;

// ---------------------------------------------------------------------------
// Association lists keyed by symbol
// ---------------------------------------------------------------------------
/// First value stored under `sym`, if any.
pub open spec fn assoc_lookup<V>(entries: Seq<(Seq<u8>, V)>, sym: Seq<u8>) -> Option<V>
    decreases entries.len(),
{
    if entries.len() == 0 {
        None
    } else if entries[0].0 == sym {
        Some(entries[0].1)
    } else {
        assoc_lookup(entries.drop_first(), sym)
    }
}

proof fn lemma_assoc_lookup_at<V>(entries: Seq<(Seq<u8>, V)>, sym: Seq<u8>, i: int)
    requires
        0 <= i < entries.len(),
        entries[i].0 == sym,
        forall|k: int| 0 <= k < i ==> entries[k].0 != sym,
    ensures
        assoc_lookup(entries, sym) == Some(entries[i].1),
    decreases i,
{
    if i > 0 {
        assert(entries.drop_first()[i - 1] == entries[i]);
        assert forall|k: int| 0 <= k < i - 1 implies entries.drop_first()[k].0 != sym by {
            assert(entries.drop_first()[k] == entries[k + 1]);
        };
        lemma_assoc_lookup_at(entries.drop_first(), sym, i - 1);
    }
}

proof fn lemma_assoc_lookup_none<V>(entries: Seq<(Seq<u8>, V)>, sym: Seq<u8>)
    requires
        forall|k: int| 0 <= k < entries.len() ==> entries[k].0 != sym,
    ensures
        assoc_lookup(entries, sym) is None,
    decreases entries.len(),
{
    if entries.len() > 0 {
        assert forall|k: int|
            0 <= k < entries.drop_first().len() implies entries.drop_first()[k].0 != sym by {
            assert(entries.drop_first()[k] == entries[k + 1]);
        };
        lemma_assoc_lookup_none(entries.drop_first(), sym);
    }
}

/// Replacing the value at the first index whose key is `sym` changes only
/// that key's binding.
proof fn lemma_assoc_update<V>(
    pre: Seq<(Seq<u8>, V)>,
    post: Seq<(Seq<u8>, V)>,
    i: int,
    sym: Seq<u8>,
)
    requires
        pre.len() == post.len(),
        0 <= i < pre.len(),
        pre[i].0 == sym,
        post[i].0 == sym,
        forall|k: int| 0 <= k < i ==> pre[k].0 != sym,
        forall|k: int| 0 <= k < pre.len() && k != i ==> post[k] == pre[k],
    ensures
        assoc_lookup(post, sym) == Some(post[i].1),
        forall|s: Seq<u8>|
            s != sym ==> #[trigger] assoc_lookup(post, s) == assoc_lookup(pre, s),
    decreases pre.len(),
{
    assert forall|k: int| 0 <= k < i implies post[k].0 != sym by {
        assert(post[k] == pre[k]);
    };
    lemma_assoc_lookup_at(post, sym, i);
    assert forall|s: Seq<u8>| s != sym implies #[trigger] assoc_lookup(post, s) == assoc_lookup(
        pre,
        s,
    ) by {
        if i == 0 {
            assert(pre[0].0 == sym);
            assert(post[0].0 == sym);
            assert(pre.drop_first() =~= post.drop_first()) by {
                assert forall|k: int|
                    0 <= k < pre.drop_first().len() implies pre.drop_first()[k]
                    == post.drop_first()[k] by {
                    assert(pre.drop_first()[k] == pre[k + 1]);
                    assert(post.drop_first()[k] == post[k + 1]);
                };
            };
            assert(assoc_lookup(pre, s) == assoc_lookup(pre.drop_first(), s));
            assert(assoc_lookup(post, s) == assoc_lookup(post.drop_first(), s));
        } else {
            assert(post[0] == pre[0]);
            if pre[0].0 == s {
                assert(assoc_lookup(pre, s) == Some(pre[0].1));
                assert(assoc_lookup(post, s) == Some(post[0].1));
            } else {
                assert forall|k: int| 0 <= k < i - 1 implies pre.drop_first()[k].0 != sym by {
                    assert(pre.drop_first()[k] == pre[k + 1]);
                };
                assert forall|k: int|
                    0 <= k < pre.drop_first().len() && k != i - 1 implies post.drop_first()[k]
                    == pre.drop_first()[k] by {
                    assert(pre.drop_first()[k] == pre[k + 1]);
                    assert(post.drop_first()[k] == post[k + 1]);
                };
                assert(pre.drop_first()[i - 1] == pre[i]);
                assert(post.drop_first()[i - 1] == post[i]);
                lemma_assoc_update(pre.drop_first(), post.drop_first(), i - 1, sym);
                assert(assoc_lookup(pre, s) == assoc_lookup(pre.drop_first(), s));
                assert(assoc_lookup(post, s) == assoc_lookup(post.drop_first(), s));
            }
        }
    };
}

/// Appending a binding for a key not yet present changes only that key.
proof fn lemma_assoc_push<V>(pre: Seq<(Seq<u8>, V)>, entry: (Seq<u8>, V))
    requires
        forall|k: int| 0 <= k < pre.len() ==> pre[k].0 != entry.0,
    ensures
        assoc_lookup(pre.push(entry), entry.0) == Some(entry.1),
        forall|s: Seq<u8>|
            s != entry.0 ==> #[trigger] assoc_lookup(pre.push(entry), s) == assoc_lookup(pre, s),
    decreases pre.len(),
{
    lemma_assoc_lookup_at(pre.push(entry), entry.0, pre.len() as int);
    assert forall|s: Seq<u8>| s != entry.0 implies #[trigger] assoc_lookup(pre.push(entry), s)
        == assoc_lookup(pre, s) by {
        if pre.len() == 0 {
            assert(pre.push(entry)[0] == entry);
            assert(pre.push(entry).drop_first() =~= Seq::<(Seq<u8>, V)>::empty());
            assert(assoc_lookup(pre.push(entry), s) == assoc_lookup(
                Seq::<(Seq<u8>, V)>::empty(),
                s,
            ));
            assert(assoc_lookup(Seq::<(Seq<u8>, V)>::empty(), s) is None);
            assert(assoc_lookup(pre, s) is None);
        } else {
            assert(pre.push(entry)[0] == pre[0]);
            if pre[0].0 == s {
                assert(assoc_lookup(pre, s) == Some(pre[0].1));
                assert(assoc_lookup(pre.push(entry), s) == Some(pre[0].1));
            } else {
                assert(pre.push(entry).drop_first() =~= pre.drop_first().push(entry));
                assert forall|k: int|
                    0 <= k < pre.drop_first().len() implies pre.drop_first()[k].0 != entry.0 by {
                    assert(pre.drop_first()[k] == pre[k + 1]);
                };
                lemma_assoc_push(pre.drop_first(), entry);
                assert(assoc_lookup(pre, s) == assoc_lookup(pre.drop_first(), s));
                assert(assoc_lookup(pre.push(entry), s) == assoc_lookup(
                    pre.drop_first().push(entry),
                    s,
                ));
            }
        }
    };
}

/// First index whose key matches, scanning in order.
fn assoc_find<V>(entries: &Vec<(Vec<u8>, V)>, sym: &Vec<u8>) -> (r: Option<usize>)
    ensures
        (match r {
            Some(i) => i < entries@.len() && entries@[i as int].0@ == sym@ && (forall|k: int|
                0 <= k < i ==> entries@[k].0@ != sym@),
            None => forall|k: int| 0 <= k < entries@.len() ==> entries@[k].0@ != sym@,
        }),
{
    let mut i: usize = 0;
    while i < entries.len()
        invariant
            i <= entries@.len(),
            forall|k: int| 0 <= k < i ==> entries@[k].0@ != sym@,
        decreases entries@.len() - i,
    {
        if bytes_eq(&entries[i].0, sym) {
            return Some(i);
        }
        i += 1;
    }
    None
}

/// What a signal with these fields says.
pub open spec fn signal_is(
    s: TradingSignal,
    sym: Seq<u8>,
    side: OrderSide,
    price_units: u64,
    quantity: u64,
    signal_type: SignalType,
    now_nanos: u128,
) -> bool {
    &&& s.symbol@ == sym
    &&& s.side == side
    &&& s.price_units == price_units
    &&& s.quantity == quantity
    &&& s.signal_type == signal_type
    &&& s.timestamp_nanos == now_nanos
}

// ---------------------------------------------------------------------------
// Threshold strategy
// ---------------------------------------------------------------------------
/// Fixed per-symbol (low, high) bands; stateless beyond configuration.
pub struct ThresholdStrategy {
    thresholds: Vec<(Vec<u8>, (u64, u64))>,
    order_size: u64,
}

/// Buy below the band, sell above it, nothing within it or for a symbol
/// with no band.
pub open spec fn threshold_decision(
    bands: Seq<(Seq<u8>, (u64, u64))>,
    sym: Seq<u8>,
    price_units: u64,
) -> Option<OrderSide> {
    match assoc_lookup(bands, sym) {
        Some((low, high)) => if price_units < low {
            Some(OrderSide::Buy)
        } else if price_units > high {
            Some(OrderSide::Sell)
        } else {
            None
        },
        None => None,
    }
}

impl ThresholdStrategy {
    pub closed spec fn bands_view(&self) -> Seq<(Seq<u8>, (u64, u64))> {
        self.thresholds@.map_values(|p: (Vec<u8>, (u64, u64))| (p.0@, p.1))
    }

    pub closed spec fn order_size_view(&self) -> u64 {
        self.order_size
    }

    pub fn new(thresholds: Vec<(Vec<u8>, (u64, u64))>, order_size: u64) -> (r: Self)
        ensures
            r.bands_view() == thresholds@.map_values(|p: (Vec<u8>, (u64, u64))| (p.0@, p.1)),
            r.order_size_view() == order_size,
    {
        Self { thresholds, order_size }
    }

    /// Decides on one tick at an explicit signal time: a signal exactly
    /// when the price leaves the symbol's band, priced at the tick and
    /// sized at the configured order size. Configuration never changes.
    pub fn process_tick_at(&mut self, enriched: &EnrichedTick, now_nanos: u128) -> (r: Option<
        TradingSignal,
    >)
        ensures
            *final(self) == *old(self),
            (match threshold_decision(
                old(self).bands_view(),
                enriched.tick@.symbol,
                enriched.tick@.price_units,
            ) {
                Some(side) => (match r {
                    Some(s) => signal_is(
                        s,
                        enriched.tick@.symbol,
                        side,
                        enriched.tick@.price_units,
                        old(self).order_size_view(),
                        SignalType::Threshold,
                        now_nanos,
                    ),
                    None => false,
                }),
                None => r is None,
            }),
    {
        let tick = &enriched.tick;
        match assoc_find(&self.thresholds, &tick.symbol) {
            Some(i) => {
                proof {
                    assert(self.bands_view()[i as int] == (
                        self.thresholds@[i as int].0@,
                        self.thresholds@[i as int].1,
                    ));
                    assert forall|k: int| 0 <= k < i implies self.bands_view()[k].0
                        != tick.symbol@ by {
                        assert(self.bands_view()[k] == (
                            self.thresholds@[k].0@,
                            self.thresholds@[k].1,
                        ));
                    };
                    lemma_assoc_lookup_at(self.bands_view(), tick.symbol@, i as int);
                }
                let (low, high) = self.thresholds[i].1;
                let side = if tick.price_units < low {
                    Some(OrderSide::Buy)
                } else if tick.price_units > high {
                    Some(OrderSide::Sell)
                } else {
                    None
                };
                match side {
                    Some(side) => Some(TradingSignal {
                        symbol: copy_bytes(&tick.symbol),
                        side,
                        price_units: tick.price_units,
                        quantity: self.order_size,
                        signal_type: SignalType::Threshold,
                        timestamp_nanos: now_nanos,
                    }),
                    None => None,
                }
            },
            None => {
                proof {
                    assert forall|k: int|
                        0 <= k < self.bands_view().len() implies self.bands_view()[k].0
                        != tick.symbol@ by {
                        assert(self.bands_view()[k] == (
                            self.thresholds@[k].0@,
                            self.thresholds@[k].1,
                        ));
                    };
                    lemma_assoc_lookup_none(self.bands_view(), tick.symbol@);
                }
                None
            },
        }
    }

    /// Decides on one tick, stamping any signal with the wall clock.
    pub fn process_tick(&mut self, enriched: &EnrichedTick) -> (r: Option<TradingSignal>)
        ensures
            *final(self) == *old(self),
            exists|now_nanos: u128|
                #[trigger] threshold_step(*old(self), *final(self), enriched.tick@, now_nanos, r),
    {
        let now_nanos = crate::now_nanos();
        let r = self.process_tick_at(enriched, now_nanos);
        proof {
            assert(threshold_step(*old(self), *final(self), enriched.tick@, now_nanos, r));
        }
        r
    }

    pub fn name(&self) -> (r: &'static str)
        ensures
            r@ == "ThresholdStrategy"@,
    {
        "ThresholdStrategy"
    }
}

// ---------------------------------------------------------------------------
// Market-making strategy
// ---------------------------------------------------------------------------
/// Quotes one side at a spread below the last price; records the last
/// price per symbol on every tick. (Two-sided quoting would emit a paired
/// buy and sell per tick; this keeps the single-sided minimal output.)
pub struct MarketMakingStrategy {
    spread_bps: u64,
    order_size: u64,
    last_prices: Vec<(Vec<u8>, u64)>,
}

/// The quote offset: the configured basis points of the price.
pub open spec fn mm_offset(price_units: u64, spread_bps: u64) -> int {
    (price_units * spread_bps) / 10000
}

impl MarketMakingStrategy {
    pub closed spec fn wf(&self) -> bool {
        self.spread_bps <= 10000
    }

    pub closed spec fn spread_bps_view(&self) -> u64 {
        self.spread_bps
    }

    pub closed spec fn order_size_view(&self) -> u64 {
        self.order_size
    }

    pub closed spec fn prices_view(&self) -> Seq<(Seq<u8>, u64)> {
        self.last_prices@.map_values(|p: (Vec<u8>, u64)| (p.0@, p.1))
    }

    pub fn new(spread_bps: u64, order_size: u64) -> (r: Self)
        requires
            spread_bps <= 10000,
        ensures
            r.wf(),
            r.spread_bps_view() == spread_bps,
            r.order_size_view() == order_size,
            r.prices_view() == Seq::<(Seq<u8>, u64)>::empty(),
    {
        let r = Self { spread_bps, order_size, last_prices: Vec::new() };
        proof {
            assert(r.prices_view() =~= Seq::<(Seq<u8>, u64)>::empty());
        }
        r
    }

    /// Always quotes: one buy signal at the tick price less the offset,
    /// and the symbol's last price is recorded.
    pub fn process_tick_at(&mut self, enriched: &EnrichedTick, now_nanos: u128) -> (r: Option<
        TradingSignal,
    >)
        requires
            old(self).wf(),
            enriched.tick.price_units <= MAX_PRICE_UNITS,
        ensures
            final(self).wf(),
            final(self).spread_bps_view() == old(self).spread_bps_view(),
            final(self).order_size_view() == old(self).order_size_view(),
            assoc_lookup(final(self).prices_view(), enriched.tick@.symbol) == Some(
                enriched.tick@.price_units,
            ),
            forall|s: Seq<u8>|
                s != enriched.tick@.symbol ==> #[trigger] assoc_lookup(
                    final(self).prices_view(),
                    s,
                ) == assoc_lookup(old(self).prices_view(), s),
            (match r {
                Some(s) => signal_is(
                    s,
                    enriched.tick@.symbol,
                    OrderSide::Buy,
                    (enriched.tick@.price_units - mm_offset(
                        enriched.tick@.price_units,
                        old(self).spread_bps_view(),
                    )) as u64,
                    old(self).order_size_view(),
                    SignalType::MarketMaking,
                    now_nanos,
                ),
                None => false,
            }),
    {
        let tick = &enriched.tick;
        let p = tick.price_units;
        proof {
            assert((p as int) * (self.spread_bps as int) <= (p as int) * 10000)
                by (nonlinear_arith)
                requires
                    self.spread_bps <= 10000,
                    p >= 0,
            ;
            assert((p as int) * 10000 <= (MAX_PRICE_UNITS as int) * 10000) by {
                vstd::arithmetic::mul::lemma_mul_inequality(
                    p as int,
                    MAX_PRICE_UNITS as int,
                    10000,
                );
            }
            vstd::arithmetic::div_mod::lemma_div_is_ordered(
                (p as int) * (self.spread_bps as int),
                (p as int) * 10000,
                10000,
            );
            vstd::arithmetic::div_mod::lemma_div_by_multiple(p as int, 10000);
            vstd::arithmetic::div_mod::lemma_div_pos_is_pos(
                (p as int) * (self.spread_bps as int),
                10000,
            );
            assert((p as int) * (self.spread_bps as int) >= 0) by (nonlinear_arith)
                requires
                    p >= 0,
                    self.spread_bps >= 0,
            ;
        }
        let offset: u64 = ((p as u128) * (self.spread_bps as u128) / 10000) as u64;
        let ghost prev = self.prices_view();
        match assoc_find(&self.last_prices, &tick.symbol) {
            Some(i) => {
                self.last_prices[i] = (copy_bytes(&tick.symbol), p);
                proof {
                    assert(self.prices_view()[i as int] == (tick.symbol@, p));
                    assert forall|k: int|
                        0 <= k < self.prices_view().len() && k != i implies self.prices_view()[k]
                        == prev[k] by {
                        assert(self.prices_view()[k] == (
                            self.last_prices@[k].0@,
                            self.last_prices@[k].1,
                        ));
                    };
                    assert forall|k: int| 0 <= k < i implies prev[k].0 != tick.symbol@ by {};
                    lemma_assoc_update(prev, self.prices_view(), i as int, tick.symbol@);
                }
            },
            None => {
                self.last_prices.push((copy_bytes(&tick.symbol), p));
                proof {
                    assert forall|k: int| 0 <= k < prev.len() implies prev[k].0
                        != tick.symbol@ by {};
                    assert(self.prices_view() =~= prev.push((tick.symbol@, p)));
                    lemma_assoc_push(prev, (tick.symbol@, p));
                }
            },
        }
        Some(
            TradingSignal {
                symbol: copy_bytes(&tick.symbol),
                side: OrderSide::Buy,
                price_units: p - offset,
                quantity: self.order_size,
                signal_type: SignalType::MarketMaking,
                timestamp_nanos: now_nanos,
            },
        )
    }

    /// Quotes on one tick, stamping the signal with the wall clock.
    pub fn process_tick(&mut self, enriched: &EnrichedTick) -> (r: Option<TradingSignal>)
        requires
            old(self).wf(),
            enriched.tick.price_units <= MAX_PRICE_UNITS,
        ensures
            final(self).wf(),
            exists|now_nanos: u128|
                #[trigger] market_making_step(
                    *old(self),
                    *final(self),
                    enriched.tick@,
                    now_nanos,
                    r,
                ),
    {
        let now_nanos = crate::now_nanos();
        let r = self.process_tick_at(enriched, now_nanos);
        proof {
            assert(market_making_step(*old(self), *final(self), enriched.tick@, now_nanos, r));
        }
        r
    }

    pub fn name(&self) -> (r: &'static str)
        ensures
            r@ == "MarketMakingStrategy"@,
    {
        "MarketMakingStrategy"
    }
}

// ---------------------------------------------------------------------------
// Mean-reversion strategy
// ---------------------------------------------------------------------------
/// Per-symbol fixed-size price windows; a z-score test once a window is
/// full.
pub struct MeanReversionStrategy {
    window_size: usize,
    threshold_centi: u64,
    order_size: u64,
    history: Vec<(Vec<u8>, Vec<u64>)>,
}

pub open spec fn sum_prices(w: Seq<u64>) -> int
    decreases w.len(),
{
    if w.len() == 0 {
        0
    } else {
        w[0] + sum_prices(w.drop_first())
    }
}

/// Sum of squared deviations, scaled by the window length: `Σ (n·w[i] − s)²`.
pub open spec fn sq_dev_sum(w: Seq<u64>, n: int, s: int) -> int
    decreases w.len(),
{
    if w.len() == 0 {
        0
    } else {
        (n * w[0] - s) * (n * w[0] - s) + sq_dev_sum(w.drop_first(), n, s)
    }
}

/// The window after observing one more price: append, then evict the
/// oldest observation if the window would exceed its size.
pub open spec fn window_after(w: Seq<u64>, price: u64, size: int) -> Seq<u64> {
    let x = w.push(price);
    if x.len() > size {
        x.drop_first()
    } else {
        x
    }
}

/// The strategy's decision on a window that already includes the new
/// price. No signal until the window is full; none when the deviation sum
/// is zero (all prices identical — the guard against dividing by a zero
/// standard deviation); otherwise sell above the band, buy below it. The
/// float test `|z| > t/100` appears here as `n·d²·100² > t²·V`.
pub open spec fn mr_decision(w: Seq<u64>, size: int, price: u64, t_centi: u64) -> Option<
    OrderSide,
> {
    if w.len() < size {
        None
    } else {
        let n = w.len() as int;
        let s = sum_prices(w);
        let v = sq_dev_sum(w, n, s);
        let d = n * price - s;
        if v == 0 {
            None
        } else if n * (d * d) * 10000 > (t_centi * t_centi) * v {
            if d > 0 {
                Some(OrderSide::Sell)
            } else {
                Some(OrderSide::Buy)
            }
        } else {
            None
        }
    }
}

/// A window within its configured size, all prices within the cap.
pub open spec fn window_ok(w: Seq<u64>, size: int) -> bool {
    &&& w.len() <= size
    &&& (forall|i: int| 0 <= i < w.len() ==> w[i] <= MAX_PRICE_UNITS)
}

/// The stored window for a symbol, empty before its first tick.
pub open spec fn window_of(hist: Seq<(Seq<u8>, Seq<u64>)>, sym: Seq<u8>) -> Seq<u64> {
    match assoc_lookup(hist, sym) {
        Some(w) => w,
        None => Seq::empty(),
    }
}

proof fn lemma_sum_prices_snoc(w: Seq<u64>, x: u64)
    ensures
        sum_prices(w.push(x)) == sum_prices(w) + x,
    decreases w.len(),
{
    if w.len() == 0 {
        assert(w.push(x)[0] == x);
        assert(w.push(x).drop_first() =~= Seq::<u64>::empty());
        assert(sum_prices(Seq::<u64>::empty()) == 0);
    } else {
        assert(w.push(x)[0] == w[0]);
        assert(w.push(x).drop_first() =~= w.drop_first().push(x));
        lemma_sum_prices_snoc(w.drop_first(), x);
    }
}

proof fn lemma_sq_dev_snoc(w: Seq<u64>, x: u64, n: int, s: int)
    ensures
        sq_dev_sum(w.push(x), n, s) == sq_dev_sum(w, n, s) + (n * x - s) * (n * x - s),
    decreases w.len(),
{
    if w.len() == 0 {
        assert(w.push(x)[0] == x);
        assert(w.push(x).drop_first() =~= Seq::<u64>::empty());
        assert(sq_dev_sum(Seq::<u64>::empty(), n, s) == 0);
    } else {
        assert(w.push(x)[0] == w[0]);
        assert(w.push(x).drop_first() =~= w.drop_first().push(x));
        lemma_sq_dev_snoc(w.drop_first(), x, n, s);
    }
}

/// A full window of identical prices has zero deviation, so the strategy
/// never signals on it, whatever the threshold and window size.
pub proof fn lemma_constant_window_never_signals(w: Seq<u64>, size: int, t_centi: u64)
    requires
        w.len() > 0,
        forall|i: int| 0 <= i < w.len() ==> #[trigger] w[i] == w[0],
    ensures
        mr_decision(w, size, w[0], t_centi) is None,
{
    if w.len() >= size {
        let n = w.len() as int;
        lemma_sum_const(w);
        lemma_sq_dev_const(w, n, n * w[0]);
        assert(n * (w[0] as int) - sum_prices(w) == 0);
    }
}

proof fn lemma_sum_const(w: Seq<u64>)
    requires
        forall|i: int| 0 <= i < w.len() ==> #[trigger] w[i] == w[0],
    ensures
        sum_prices(w) == w.len() * w[0],
    decreases w.len(),
{
    if w.len() == 0 {
    } else if w.len() == 1 {
        assert(w.drop_first().len() == 0);
        assert(sum_prices(w.drop_first()) == 0);
        assert(w.len() * w[0] == w[0]) by (nonlinear_arith)
            requires
                w.len() == 1,
        ;
    } else {
        assert forall|i: int| 0 <= i < w.drop_first().len() implies #[trigger] w.drop_first()[i]
            == w.drop_first()[0] by {
            assert(w.drop_first()[i] == w[i + 1]);
            assert(w.drop_first()[0] == w[1]);
        };
        lemma_sum_const(w.drop_first());
        assert(w.drop_first()[0] == w[1]);
        assert(w[1] == w[0]);
        assert(sum_prices(w) == w[0] + w.drop_first().len() * w[0]);
        assert(w[0] + (w.len() - 1) * w[0] == w.len() * w[0]) by (nonlinear_arith);
    }
}

proof fn lemma_sq_dev_const(w: Seq<u64>, n: int, s: int)
    requires
        forall|i: int| 0 <= i < w.len() ==> n * (#[trigger] w[i]) == s,
    ensures
        sq_dev_sum(w, n, s) == 0,
    decreases w.len(),
{
    if w.len() > 0 {
        assert forall|i: int|
            0 <= i < w.drop_first().len() implies n * (#[trigger] w.drop_first()[i]) == s by {
            assert(w.drop_first()[i] == w[i + 1]);
        };
        lemma_sq_dev_const(w.drop_first(), n, s);
        assert(n * w[0] == s);
    }
}

/// Builds the window after one more observation.
fn updated_window(w: &Vec<u64>, price: u64, size: usize) -> (r: Vec<u64>)
    requires
        window_ok(w@, size as int),
        1 <= size <= MAX_WINDOW,
        price <= MAX_PRICE_UNITS,
    ensures
        r@ == window_after(w@, price, size as int),
        window_ok(r@, size as int),
{
    let start: usize = if w.len() + 1 > size {
        1
    } else {
        0
    };
    let mut out: Vec<u64> = Vec::new();
    let mut k = start;
    while k < w.len()
        invariant
            start <= k <= w@.len(),
            start <= 1,
            out@ == w@.subrange(start as int, k as int),
        decreases w@.len() - k,
    {
        out.push(w[k]);
        proof {
            assert(w@.subrange(start as int, k + 1) =~= w@.subrange(start as int, k as int).push(
                w@[k as int],
            ));
        }
        k += 1;
    }
    out.push(price);
    proof {
        assert(out@ =~= window_after(w@, price, size as int));
    }
    out
}

/// The integer z-score test over a finished window.
fn decide(w: &Vec<u64>, size: usize, price: u64, t_centi: u64) -> (r: Option<OrderSide>)
    requires
        window_ok(w@, size as int),
        size <= MAX_WINDOW,
        t_centi <= MAX_THRESHOLD_CENTI,
        price <= MAX_PRICE_UNITS,
    ensures
        r == mr_decision(w@, size as int, price, t_centi),
{
    if w.len() < size {
        return None;
    }
    let n: usize = w.len();
    let ghost ni = n as int;
    let mut s: u128 = 0;
    let mut k: usize = 0;
    while k < n
        invariant
            k <= n,
            n == w@.len() <= MAX_WINDOW,
            window_ok(w@, size as int),
            n as int == w@.len(),
            s as int == sum_prices(w@.take(k as int)),
            s <= (k as int) * (MAX_PRICE_UNITS as int),
        decreases n - k,
    {
        proof {
            lemma_sum_prices_snoc(w@.take(k as int), w@[k as int]);
            assert(w@.take(k + 1) =~= w@.take(k as int).push(w@[k as int]));
            assert((k + 1) * (MAX_PRICE_UNITS as int) == (k as int) * (MAX_PRICE_UNITS as int)
                + MAX_PRICE_UNITS) by (nonlinear_arith);
            assert((k as int) * (MAX_PRICE_UNITS as int) <= 100 * (MAX_PRICE_UNITS as int))
                by (nonlinear_arith)
                requires
                    0 <= k <= 100,
            ;
        }
        s = s + w[k] as u128;
        k += 1;
    }
    proof {
        assert(w@.take(n as int) =~= w@);
        assert(s <= 100 * (MAX_PRICE_UNITS as int)) by (nonlinear_arith)
            requires
                s <= (n as int) * (MAX_PRICE_UNITS as int),
                0 <= n <= 100,
        ;
    }
    let mut v: u128 = 0;
    let ghost dev_cap = 100 * (MAX_PRICE_UNITS as int);
    proof {
        assert(dev_cap == 100000000000000);
        assert(dev_cap * dev_cap == 10000000000000000000000000000) by (nonlinear_arith)
            requires
                dev_cap == 100000000000000,
        ;
    }
    let mut k: usize = 0;
    while k < n
        invariant
            k <= n,
            n == w@.len() <= MAX_WINDOW,
            window_ok(w@, size as int),
            s as int == sum_prices(w@),
            s <= 100 * (MAX_PRICE_UNITS as int),
            dev_cap == 100 * (MAX_PRICE_UNITS as int),
            dev_cap * dev_cap == 10000000000000000000000000000,
            v as int == sq_dev_sum(w@.take(k as int), n as int, s as int),
            v as int <= (k as int) * (dev_cap * dev_cap),
        decreases n - k,
    {
        proof {
            assert((n as int) * (w@[k as int] as int) <= dev_cap) by (nonlinear_arith)
                requires
                    0 <= n <= 100,
                    0 <= w@[k as int] <= MAX_PRICE_UNITS,
                    dev_cap == 100 * (MAX_PRICE_UNITS as int),
            ;
            assert((n as int) * (w@[k as int] as int) >= 0) by (nonlinear_arith)
                requires
                    n >= 0,
                    w@[k as int] >= 0,
            ;
        }
        let nwk: u128 = (n as u128) * (w[k] as u128);
        let di: i128 = nwk as i128 - s as i128;
        proof {
            assert(-dev_cap <= di as int <= dev_cap);
            assert((di as int) * (di as int) <= dev_cap * dev_cap) by (nonlinear_arith)
                requires
                    -dev_cap <= di as int <= dev_cap,
                    dev_cap >= 0,
            ;
            assert((di as int) * (di as int) >= 0) by (nonlinear_arith);
            lemma_sq_dev_snoc(w@.take(k as int), w@[k as int], n as int, s as int);
            assert(w@.take(k + 1) =~= w@.take(k as int).push(w@[k as int]));
            assert((k + 1) * (dev_cap * dev_cap) == (k as int) * (dev_cap * dev_cap) + dev_cap
                * dev_cap) by (nonlinear_arith);
            assert((k as int) * (dev_cap * dev_cap) <= 100 * (dev_cap * dev_cap))
                by (nonlinear_arith)
                requires
                    0 <= k <= 100,
            ;
        }
        let sq: u128 = (di * di) as u128;
        v = v + sq;
        k += 1;
    }
    proof {
        assert(w@.take(n as int) =~= w@);
        assert(v as int <= 100 * (dev_cap * dev_cap)) by (nonlinear_arith)
            requires
                v as int <= (n as int) * (dev_cap * dev_cap),
                0 <= n <= 100,
                dev_cap * dev_cap >= 0,
        ;
    }
    proof {
        assert((n as int) * (price as int) <= dev_cap) by (nonlinear_arith)
            requires
                0 <= n <= 100,
                0 <= price <= MAX_PRICE_UNITS,
                dev_cap == 100 * (MAX_PRICE_UNITS as int),
            ;
        assert((n as int) * (price as int) >= 0) by (nonlinear_arith)
            requires
                n >= 0,
                price >= 0,
        ;
    }
    let np: u128 = (n as u128) * (price as u128);
    let d: i128 = np as i128 - s as i128;
    if v == 0 {
        return None;
    }
    proof {
        assert(-dev_cap <= d as int <= dev_cap);
        assert((d as int) * (d as int) <= dev_cap * dev_cap) by (nonlinear_arith)
            requires
                -dev_cap <= d as int <= dev_cap,
                dev_cap >= 0,
        ;
        assert((d as int) * (d as int) >= 0) by (nonlinear_arith);
        assert((n as int) * ((d as int) * (d as int)) <= 100 * (dev_cap * dev_cap))
            by (nonlinear_arith)
            requires
                0 <= n <= 100,
                0 <= (d as int) * (d as int) <= dev_cap * dev_cap,
        ;
        assert((n as int) * ((d as int) * (d as int)) >= 0) by (nonlinear_arith)
            requires
                n >= 0,
                (d as int) * (d as int) >= 0,
        ;
        assert((t_centi as int) * (t_centi as int) <= 10000 * 10000) by (nonlinear_arith)
            requires
                0 <= t_centi <= 10000,
        ;
        assert((t_centi as int) * (t_centi as int) >= 0) by (nonlinear_arith);
        assert(((t_centi as int) * (t_centi as int)) * (v as int) <= (10000 * 10000) * (100 * (
        dev_cap * dev_cap))) by (nonlinear_arith)
            requires
                0 <= (t_centi as int) * (t_centi as int) <= 10000 * 10000,
                0 <= v as int <= 100 * (dev_cap * dev_cap),
        ;
    }
    let dd: u128 = (d * d) as u128;
    let lhs: u128 = (n as u128) * dd * 10000;
    let rhs: u128 = (t_centi as u128) * (t_centi as u128) * v;
    if lhs > rhs {
        if d > 0 {
            Some(OrderSide::Sell)
        } else {
            Some(OrderSide::Buy)
        }
    } else {
        None
    }
}

impl MeanReversionStrategy {
    pub closed spec fn wf(&self) -> bool {
        &&& 1 <= self.window_size <= MAX_WINDOW
        &&& self.threshold_centi <= MAX_THRESHOLD_CENTI
        &&& (forall|k: int|
            0 <= k < self.history@.len() ==> window_ok(
                (#[trigger] self.history@[k]).1@,
                self.window_size as int,
            ))
    }

    pub closed spec fn window_size_view(&self) -> int {
        self.window_size as int
    }

    pub closed spec fn threshold_centi_view(&self) -> u64 {
        self.threshold_centi
    }

    pub closed spec fn order_size_view(&self) -> u64 {
        self.order_size
    }

    pub closed spec fn history_view(&self) -> Seq<(Seq<u8>, Seq<u64>)> {
        self.history@.map_values(|p: (Vec<u8>, Vec<u64>)| (p.0@, p.1@))
    }

    /// `threshold_centi` is the std-dev multiplier in hundredths: 150
    /// stands for one and a half standard deviations.
    pub fn new(window_size: usize, threshold_centi: u64, order_size: u64) -> (r: Self)
        requires
            1 <= window_size <= MAX_WINDOW,
            threshold_centi <= MAX_THRESHOLD_CENTI,
        ensures
            r.wf(),
            r.window_size_view() == window_size as int,
            r.threshold_centi_view() == threshold_centi,
            r.order_size_view() == order_size,
            r.history_view() == Seq::<(Seq<u8>, Seq<u64>)>::empty(),
    {
        let r = Self { window_size, threshold_centi, order_size, history: Vec::new() };
        proof {
            assert(r.history_view() =~= Seq::<(Seq<u8>, Seq<u64>)>::empty());
        }
        r
    }

    /// Observes one tick at an explicit signal time: the symbol's window
    /// gains the price (evicting the oldest observation when full), other
    /// symbols are untouched, and the signal is exactly the window
    /// decision, priced at the tick and sized at the configured order
    /// size.
    pub fn process_tick_at(&mut self, enriched: &EnrichedTick, now_nanos: u128) -> (r: Option<
        TradingSignal,
    >)
        requires
            old(self).wf(),
            enriched.tick.price_units <= MAX_PRICE_UNITS,
        ensures
            final(self).wf(),
            final(self).window_size_view() == old(self).window_size_view(),
            final(self).threshold_centi_view() == old(self).threshold_centi_view(),
            final(self).order_size_view() == old(self).order_size_view(),
            window_of(final(self).history_view(), enriched.tick@.symbol) == window_after(
                window_of(old(self).history_view(), enriched.tick@.symbol),
                enriched.tick@.price_units,
                old(self).window_size_view(),
            ),
            forall|s: Seq<u8>|
                s != enriched.tick@.symbol ==> #[trigger] assoc_lookup(
                    final(self).history_view(),
                    s,
                ) == assoc_lookup(old(self).history_view(), s),
            (match mr_decision(
                window_after(
                    window_of(old(self).history_view(), enriched.tick@.symbol),
                    enriched.tick@.price_units,
                    old(self).window_size_view(),
                ),
                old(self).window_size_view(),
                enriched.tick@.price_units,
                old(self).threshold_centi_view(),
            ) {
                Some(side) => (match r {
                    Some(s) => signal_is(
                        s,
                        enriched.tick@.symbol,
                        side,
                        enriched.tick@.price_units,
                        old(self).order_size_view(),
                        SignalType::MeanReversion,
                        now_nanos,
                    ),
                    None => false,
                }),
                None => r is None,
            }),
    {
        let tick = &enriched.tick;
        let p = tick.price_units;
        let ghost prev_hist = self.history_view();
        let found = assoc_find(&self.history, &tick.symbol);
        let new_w: Vec<u64> = match found {
            Some(i) => {
                proof {
                    assert(prev_hist[i as int] == (
                        self.history@[i as int].0@,
                        self.history@[i as int].1@,
                    ));
                    assert forall|k: int| 0 <= k < i implies prev_hist[k].0 != tick.symbol@ by {
                        assert(prev_hist[k] == (self.history@[k].0@, self.history@[k].1@));
                    };
                    lemma_assoc_lookup_at(prev_hist, tick.symbol@, i as int);
                }
                updated_window(&self.history[i].1, p, self.window_size)
            },
            None => {
                proof {
                    assert forall|k: int|
                        0 <= k < prev_hist.len() implies prev_hist[k].0 != tick.symbol@ by {
                        assert(prev_hist[k] == (self.history@[k].0@, self.history@[k].1@));
                    };
                    lemma_assoc_lookup_none(prev_hist, tick.symbol@);
                }
                let empty_w: Vec<u64> = Vec::new();
                updated_window(&empty_w, p, self.window_size)
            },
        };
        let decision = decide(&new_w, self.window_size, p, self.threshold_centi);
        let ghost new_w_view = new_w@;
        match found {
            Some(i) => {
                self.history[i] = (copy_bytes(&tick.symbol), new_w);
                proof {
                    assert(self.history_view()[i as int] == (tick.symbol@, new_w_view));
                    assert forall|k: int|
                        0 <= k < self.history_view().len() && k != i implies self.history_view()[k]
                        == prev_hist[k] by {
                        assert(self.history_view()[k] == (
                            self.history@[k].0@,
                            self.history@[k].1@,
                        ));
                    };
                    lemma_assoc_update(prev_hist, self.history_view(), i as int, tick.symbol@);
                }
            },
            None => {
                self.history.push((copy_bytes(&tick.symbol), new_w));
                proof {
                    assert(self.history_view() =~= prev_hist.push((tick.symbol@, new_w_view)));
                    lemma_assoc_push(prev_hist, (tick.symbol@, new_w_view));
                }
            },
        }
        match decision {
            Some(side) => Some(
                TradingSignal {
                    symbol: copy_bytes(&tick.symbol),
                    side,
                    price_units: p,
                    quantity: self.order_size,
                    signal_type: SignalType::MeanReversion,
                    timestamp_nanos: now_nanos,
                },
            ),
            None => None,
        }
    }

    /// Observes one tick, stamping any signal with the wall clock.
    pub fn process_tick(&mut self, enriched: &EnrichedTick) -> (r: Option<TradingSignal>)
        requires
            old(self).wf(),
            enriched.tick.price_units <= MAX_PRICE_UNITS,
        ensures
            final(self).wf(),
            exists|now_nanos: u128|
                #[trigger] mean_reversion_step(
                    *old(self),
                    *final(self),
                    enriched.tick@,
                    now_nanos,
                    r,
                ),
    {
        let now_nanos = crate::now_nanos();
        let r = self.process_tick_at(enriched, now_nanos);
        proof {
            assert(mean_reversion_step(*old(self), *final(self), enriched.tick@, now_nanos, r));
        }
        r
    }

    pub fn name(&self) -> (r: &'static str)
        ensures
            r@ == "MeanReversionStrategy"@,
    {
        "MeanReversionStrategy"
    }
}

// ---------------------------------------------------------------------------
// The closed strategy set
// ---------------------------------------------------------------------------
/// One processing step of the threshold strategy: state untouched, signal
/// exactly per the band decision.
pub open spec fn threshold_step(
    pre: ThresholdStrategy,
    post: ThresholdStrategy,
    tick: TickModel,
    now_nanos: u128,
    r: Option<TradingSignal>,
) -> bool {
    &&& post == pre
    &&& (match threshold_decision(pre.bands_view(), tick.symbol, tick.price_units) {
        Some(side) => (match r {
            Some(s) => signal_is(
                s,
                tick.symbol,
                side,
                tick.price_units,
                pre.order_size_view(),
                SignalType::Threshold,
                now_nanos,
            ),
            None => false,
        }),
        None => r is None,
    })
}

/// One processing step of the market-making strategy: the symbol's last
/// price recorded, everything else untouched, and always one quote.
pub open spec fn market_making_step(
    pre: MarketMakingStrategy,
    post: MarketMakingStrategy,
    tick: TickModel,
    now_nanos: u128,
    r: Option<TradingSignal>,
) -> bool {
    &&& post.spread_bps_view() == pre.spread_bps_view()
    &&& post.order_size_view() == pre.order_size_view()
    &&& assoc_lookup(post.prices_view(), tick.symbol) == Some(tick.price_units)
    &&& (forall|s: Seq<u8>|
        s != tick.symbol ==> #[trigger] assoc_lookup(post.prices_view(), s) == assoc_lookup(
            pre.prices_view(),
            s,
        ))
    &&& (match r {
        Some(s) => signal_is(
            s,
            tick.symbol,
            OrderSide::Buy,
            (tick.price_units - mm_offset(tick.price_units, pre.spread_bps_view())) as u64,
            pre.order_size_view(),
            SignalType::MarketMaking,
            now_nanos,
        ),
        None => false,
    })
}

/// One processing step of the mean-reversion strategy: the symbol's window
/// advanced, other symbols untouched, and the signal exactly the window
/// decision.
pub open spec fn mean_reversion_step(
    pre: MeanReversionStrategy,
    post: MeanReversionStrategy,
    tick: TickModel,
    now_nanos: u128,
    r: Option<TradingSignal>,
) -> bool {
    &&& post.window_size_view() == pre.window_size_view()
    &&& post.threshold_centi_view() == pre.threshold_centi_view()
    &&& post.order_size_view() == pre.order_size_view()
    &&& window_of(post.history_view(), tick.symbol) == window_after(
        window_of(pre.history_view(), tick.symbol),
        tick.price_units,
        pre.window_size_view(),
    )
    &&& (forall|s: Seq<u8>|
        s != tick.symbol ==> #[trigger] assoc_lookup(post.history_view(), s) == assoc_lookup(
            pre.history_view(),
            s,
        ))
    &&& (match mr_decision(
        window_after(
            window_of(pre.history_view(), tick.symbol),
            tick.price_units,
            pre.window_size_view(),
        ),
        pre.window_size_view(),
        tick.price_units,
        pre.threshold_centi_view(),
    ) {
        Some(side) => (match r {
            Some(s) => signal_is(
                s,
                tick.symbol,
                side,
                tick.price_units,
                pre.order_size_view(),
                SignalType::MeanReversion,
                now_nanos,
            ),
            None => false,
        }),
        None => r is None,
    })
}

/// The closed set of strategy variants: extended by adding a variant, not
/// by inheritance. Each variant owns its state in isolation.
pub enum Strategy {
    Threshold(ThresholdStrategy),
    MarketMaking(MarketMakingStrategy),
    MeanReversion(MeanReversionStrategy),
}

/// One processing step of whichever variant the strategy is: the variant
/// never changes and its own step contract holds.
pub open spec fn strategy_step(
    pre: Strategy,
    post: Strategy,
    tick: TickModel,
    now_nanos: u128,
    r: Option<TradingSignal>,
) -> bool {
    match pre {
        Strategy::Threshold(p) => match post {
            Strategy::Threshold(q) => threshold_step(p, q, tick, now_nanos, r),
            _ => false,
        },
        Strategy::MarketMaking(p) => match post {
            Strategy::MarketMaking(q) => market_making_step(p, q, tick, now_nanos, r),
            _ => false,
        },
        Strategy::MeanReversion(p) => match post {
            Strategy::MeanReversion(q) => mean_reversion_step(p, q, tick, now_nanos, r),
            _ => false,
        },
    }
}

impl Strategy {
    pub open spec fn wf(&self) -> bool {
        match self {
            Strategy::Threshold(_) => true,
            Strategy::MarketMaking(s) => s.wf(),
            Strategy::MeanReversion(s) => s.wf(),
        }
    }

    /// Dispatches one tick at an explicit signal time: the variant never
    /// changes, and the variant's own step contract holds.
    pub fn process_tick_at(&mut self, enriched: &EnrichedTick, now_nanos: u128) -> (r: Option<
        TradingSignal,
    >)
        requires
            old(self).wf(),
            enriched.tick.price_units <= MAX_PRICE_UNITS,
        ensures
            final(self).wf(),
            strategy_step(*old(self), *final(self), enriched.tick@, now_nanos, r),
    {
        match self {
            Strategy::Threshold(s) => s.process_tick_at(enriched, now_nanos),
            Strategy::MarketMaking(s) => s.process_tick_at(enriched, now_nanos),
            Strategy::MeanReversion(s) => s.process_tick_at(enriched, now_nanos),
        }
    }

    /// Dispatches one tick, stamping any signal with the wall clock.
    pub fn process_tick(&mut self, enriched: &EnrichedTick) -> (r: Option<TradingSignal>)
        requires
            old(self).wf(),
            enriched.tick.price_units <= MAX_PRICE_UNITS,
        ensures
            final(self).wf(),
            exists|now_nanos: u128|
                #[trigger] strategy_step(*old(self), *final(self), enriched.tick@, now_nanos, r),
    {
        let now_nanos = crate::now_nanos();
        self.process_tick_at(enriched, now_nanos)
    }

    pub fn name(&self) -> (r: &'static str)
        ensures
            self is Threshold ==> r@ == "ThresholdStrategy"@,
            self is MarketMaking ==> r@ == "MarketMakingStrategy"@,
            self is MeanReversion ==> r@ == "MeanReversionStrategy"@,
    {
        match self {
            Strategy::Threshold(s) => s.name(),
            Strategy::MarketMaking(s) => s.name(),
            Strategy::MeanReversion(s) => s.name(),
        }
    }
}

} // verus!
