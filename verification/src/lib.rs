//! Core data model and analytics for a market-data pipeline: ticks, order
//! books, trading signals, strategies, a record/replay log and the framing
//! used between components.
//!
//! Prices and quantities are fixed-point integers: a price is a `u64` number
//! of price units, where the caller picks the unit (for example one unit per
//! cent, or one unit per 1e-4 of the quoted currency). All derived figures
//! (spreads, averages, thresholds) are expressed in the same units, so the
//! arithmetic here is exact and the choice of unit never appears in the
//! logic. Timestamps are nanoseconds in `u128`; latencies are microseconds
//! in `i128`, signed so that clock skew is representable rather than
//! wrapping.

pub mod codec;
pub mod gateway;
pub mod messaging;
pub mod metrics;
pub mod orderbook;
pub mod replay;
pub mod strategies;
pub mod transport;

use vstd::prelude::*;

verus! {

/// Largest price, in price units, that the analytics accept. Products such
/// as `price * spread_bps` and the sums behind the rolling statistics are
/// then known to fit the machine integers they are computed in.
pub const MAX_PRICE_UNITS: u64 = 1_000_000_000_000;

/// A single price observation for a symbol at its origin time.
#[derive(Clone, Debug, PartialEq, Eq)]
pub struct MarketTick {
    /// Symbol name as raw bytes (for example `b"BTC/USD"`).
    pub symbol: Vec<u8>,
    /// Price in fixed-point price units.
    pub price_units: u64,
    pub volume: u64,
    pub timestamp_nanos: u128,
}

/// Ghost image of a `MarketTick`: the symbol as a sequence, the numeric
/// fields as themselves.
pub struct TickModel {
    pub symbol: Seq<u8>,
    pub price_units: u64,
    pub volume: u64,
    pub timestamp_nanos: u128,
}

impl View for MarketTick {
    type V = TickModel;

    open spec fn view(&self) -> TickModel {
        TickModel {
            symbol: self.symbol@,
            price_units: self.price_units,
            volume: self.volume,
            timestamp_nanos: self.timestamp_nanos,
        }
    }
}

impl MarketTick {
    pub fn new(symbol: Vec<u8>, price_units: u64, volume: u64, timestamp_nanos: u128) -> (r:
        Self)
        ensures
            r@.symbol == symbol@,
            r@.price_units == price_units,
            r@.volume == volume,
            r@.timestamp_nanos == timestamp_nanos,
    {
        Self { symbol, price_units, volume, timestamp_nanos }
    }
}

/// Latency in whole microseconds between origin and receipt, truncated
/// toward zero; negative when the receive clock is behind the origin clock.
pub open spec fn latency_micros_of(timestamp_nanos: u128, receive_time_nanos: u128) -> int {
    if receive_time_nanos >= timestamp_nanos {
        (receive_time_nanos - timestamp_nanos) / 1000
    } else {
        -((timestamp_nanos - receive_time_nanos) / 1000)
    }
}

/// A tick stamped with its receive time and the transit latency.
#[derive(Clone, Debug, PartialEq, Eq)]
pub struct EnrichedTick {
    pub tick: MarketTick,
    pub receive_time_nanos: u128,
    /// Microseconds from origin to receipt; negative means clock skew.
    pub latency_micros: i128,
}

impl EnrichedTick {
    /// Whether the latency indicates clock skew (receipt apparently before
    /// origin), an anomaly to surface rather than an error.
    pub fn is_skewed(&self) -> (r: bool)
        ensures
            r == (self.latency_micros < 0),
    {
        self.latency_micros < 0
    }
}

/// Stamps a tick with its receive time, exactly once per tick. The latency
/// is computed in signed arithmetic and never wraps or panics, whatever the
/// two clocks say.
pub fn enrich(tick: MarketTick, receive_time_nanos: u128) -> (r: EnrichedTick)
    ensures
        r.tick == tick,
        r.receive_time_nanos == receive_time_nanos,
        r.latency_micros as int == latency_micros_of(tick.timestamp_nanos, receive_time_nanos),
{
    let ts = tick.timestamp_nanos;
    let latency_micros: i128 = if receive_time_nanos >= ts {
        let d: u128 = (receive_time_nanos - ts) / 1000;
        proof {
            assert(d <= u128::MAX / 1000) by {
                vstd::arithmetic::div_mod::lemma_div_is_ordered(
                    (receive_time_nanos - ts) as int,
                    u128::MAX as int,
                    1000,
                );
            }
        }
        d as i128
    } else {
        let d: u128 = (ts - receive_time_nanos) / 1000;
        proof {
            assert(d <= u128::MAX / 1000) by {
                vstd::arithmetic::div_mod::lemma_div_is_ordered(
                    (ts - receive_time_nanos) as int,
                    u128::MAX as int,
                    1000,
                );
            }
        }
        -(d as i128)
    };
    EnrichedTick { tick, receive_time_nanos, latency_micros }
}

/// Which way an order or signal trades.
#[derive(Clone, Copy, Debug, PartialEq, Eq, Structural)]
pub enum OrderSide {
    Buy,
    Sell,
}

impl OrderSide {
    /// Upper-case wire label for the side.
    pub fn label(&self) -> (r: &'static str)
        ensures
            self is Buy ==> r@ == "BUY"@,
            self is Sell ==> r@ == "SELL"@,
    {
        match self {
            OrderSide::Buy => "BUY",
            OrderSide::Sell => "SELL",
        }
    }
}

/// A trading order handed to the execution side.
#[derive(Clone, Debug, PartialEq, Eq)]
pub struct Order {
    pub order_id: u64,
    pub symbol: Vec<u8>,
    pub side: OrderSide,
    pub price_units: u64,
    pub quantity: u64,
    pub timestamp_nanos: u128,
}

impl Order {
    pub fn new(
        order_id: u64,
        symbol: Vec<u8>,
        side: OrderSide,
        price_units: u64,
        quantity: u64,
        timestamp_nanos: u128,
    ) -> (r: Self)
        ensures
            r.order_id == order_id,
            r.symbol@ == symbol@,
            r.side == side,
            r.price_units == price_units,
            r.quantity == quantity,
            r.timestamp_nanos == timestamp_nanos,
    {
        Self { order_id, symbol, side, price_units, quantity, timestamp_nanos }
    }
}

/// One price level of an order book: a price and the quantity resting there.
#[derive(Clone, Copy, Debug, PartialEq, Eq, Structural)]
pub struct BookLevel {
    pub price_units: u64,
    pub quantity: u64,
}

/// A two-sided price ladder. When non-empty, `bids[0]` is the best (highest)
/// bid and `asks[0]` the best (lowest) ask; bids are sorted strictly
/// descending and asks strictly ascending by price.
#[derive(Clone, Debug, PartialEq, Eq)]
pub struct OrderBook {
    pub symbol: Vec<u8>,
    pub bids: Vec<BookLevel>,
    pub asks: Vec<BookLevel>,
    pub timestamp_nanos: u128,
}

impl OrderBook {
    pub fn new(symbol: Vec<u8>, timestamp_nanos: u128) -> (r: Self)
        ensures
            r.symbol@ == symbol@,
            r.bids@ == Seq::<BookLevel>::empty(),
            r.asks@ == Seq::<BookLevel>::empty(),
            r.timestamp_nanos == timestamp_nanos,
    {
        Self { symbol, bids: Vec::new(), asks: Vec::new(), timestamp_nanos }
    }

    /// Best (first) bid level, absent on an empty side: no data, not an
    /// error.
    pub fn best_bid(&self) -> (r: Option<&BookLevel>)
        ensures
            self.bids@.len() == 0 <==> r is None,
            self.bids@.len() > 0 ==> r == Some(&self.bids@[0]),
    {
        if self.bids.len() > 0 {
            Some(&self.bids[0])
        } else {
            None
        }
    }

    /// Best (first) ask level, absent on an empty side.
    pub fn best_ask(&self) -> (r: Option<&BookLevel>)
        ensures
            self.asks@.len() == 0 <==> r is None,
            self.asks@.len() > 0 ==> r == Some(&self.asks@[0]),
    {
        if self.asks.len() > 0 {
            Some(&self.asks[0])
        } else {
            None
        }
    }

    /// Best ask price minus best bid price, signed: a crossed book yields a
    /// negative spread. Absent when either side is empty.
    pub fn spread(&self) -> (r: Option<i128>)
        ensures
            r is Some <==> (self.bids@.len() > 0 && self.asks@.len() > 0),
            r matches Some(s) ==> s == self.asks@[0].price_units - self.bids@[0].price_units,
    {
        if self.bids.len() > 0 && self.asks.len() > 0 {
            Some(self.asks[0].price_units as i128 - self.bids[0].price_units as i128)
        } else {
            None
        }
    }

    /// Midpoint of the best bid and ask, truncated to whole price units.
    /// Absent when either side is empty.
    pub fn mid_price(&self) -> (r: Option<u64>)
        ensures
            r is Some <==> (self.bids@.len() > 0 && self.asks@.len() > 0),
            r matches Some(m) ==> m == (self.asks@[0].price_units + self.bids@[0].price_units)
                / 2,
    {
        if self.bids.len() > 0 && self.asks.len() > 0 {
            let sum: u128 = self.asks[0].price_units as u128 + self.bids[0].price_units as u128;
            Some((sum / 2) as u64)
        } else {
            None
        }
    }
}

/// Which strategy produced a signal.
#[derive(Clone, Copy, Debug, PartialEq, Eq, Structural)]
pub enum SignalType {
    Threshold,
    MarketMaking,
    Arbitrage,
    MeanReversion,
}

/// A strategy's advice to trade, consumed once downstream.
#[derive(Clone, Debug, PartialEq, Eq)]
pub struct TradingSignal {
    pub symbol: Vec<u8>,
    pub side: OrderSide,
    pub price_units: u64,
    pub quantity: u64,
    pub signal_type: SignalType,
    pub timestamp_nanos: u128,
}

/// Static per-symbol trading limits.
#[derive(Clone, Debug, PartialEq, Eq)]
pub struct SymbolConfig {
    pub symbol: Vec<u8>,
    pub tick_size_units: u64,
    pub lot_size: u64,
    pub min_price_units: u64,
    pub max_price_units: u64,
}

/// Errors surfaced by the pipeline.
#[derive(Clone, Debug, PartialEq, Eq)]
pub enum HftError {
    InvalidPrice(u64),
    InvalidQuantity(u64),
    SymbolNotFound(Vec<u8>),
    OrderBookEmpty(Vec<u8>),
    NetworkError,
    /// A record that does not parse as a serialized tick.
    SerializationError,
}

pub type HftResult<T> = Result<T, HftError>;

/// Relies on std::time::SystemTime: the wall clock read at the call, as
/// nanoseconds since the Unix epoch, or zero when the clock reads before
/// the epoch. No clause: wall time is not a function of the arguments, and
/// two calls may differ.
#[verifier::external_body]
pub(crate) fn now_nanos() -> u128 {
    match std::time::SystemTime::now().duration_since(std::time::UNIX_EPOCH) {
        Ok(d) => d.as_nanos(),
        Err(_) => 0,
    }
}

/// The next value of a monotone counter: one more, held at the top of the
/// range rather than wrapped.
pub open spec fn bump(c: u64) -> u64 {
    if c < u64::MAX {
        (c + 1) as u64
    } else {
        c
    }
}

/// Whether two byte buffers hold the same bytes.
pub fn bytes_eq(a: &Vec<u8>, b: &Vec<u8>) -> (r: bool)
    ensures
        r == (a@ == b@),
{
    if a.len() != b.len() {
        return false;
    }
    let mut i: usize = 0;
    while i < a.len()
        invariant
            a@.len() == b@.len(),
            i <= a@.len(),
            forall|k: int| 0 <= k < i ==> a@[k] == b@[k],
        decreases a@.len() - i,
    {
        if a[i] != b[i] {
            return false;
        }
        i += 1;
    }
    proof {
        assert(a@ =~= b@);
    }
    true
}

/// A fresh buffer holding the same bytes.
pub fn copy_bytes(v: &Vec<u8>) -> (out: Vec<u8>)
    ensures
        out@ == v@,
{
    let mut out: Vec<u8> = Vec::new();
    let mut i: usize = 0;
    while i < v.len()
        invariant
            i <= v@.len(),
            out@ == v@.take(i as int),
        decreases v@.len() - i,
    {
        out.push(v[i]);
        proof {
            assert(v@.take(i + 1) =~= v@.take(i as int).push(v@[i as int]));
        }
        i += 1;
    }
    proof {
        assert(v@.take(v@.len() as int) =~= v@);
    }
    out
}

} // verus!
