//! Per-symbol order-book state derived synthetically from best-price ticks.
//!
//! The manager owns one book per symbol, created lazily and replaced whole
//! on every tick: with a configured spread in basis points and level count
//! `L`, level `i` is priced one half-spread away from the tick price plus
//! `i` basis-point steps, with quantity `volume / (i + 1)`. A real depth
//! feed would bypass this derivation and apply true ladders, keeping the
//! same ordering invariant. Read operations — best bid and ask, spread,
//! VWAP, crossed-book detection, depth — are pure.

use vstd::prelude::*;

use crate::BookLevel;
use crate::MAX_PRICE_UNITS;
use crate::MarketTick;
use crate::OrderBook;
use crate::TickModel;
use crate::bytes_eq;
use crate::copy_bytes;

verus! {

pub const DEFAULT_SPREAD_BPS: u64 = 10;

pub const DEFAULT_LEVELS: usize = 5;

/// Most levels a side may be configured to carry; keeps the VWAP sums well
/// inside `u128`.
pub const MAX_LEVELS: usize = 100;

// ---------------------------------------------------------------------------
// The synthetic derivation, at the specification level
// ---------------------------------------------------------------------------
/// Half the configured spread at this price, in price units.
pub open spec fn half_spread_units(price: u64, spread_bps: u64) -> int {
    ((price * spread_bps) / 10000) / 2
}

/// One basis point of the price: the distance between adjacent levels.
pub open spec fn level_step_units(price: u64) -> int {
    price as int / 10000
}

pub open spec fn bid_price_at(price: u64, spread_bps: u64, i: int) -> int {
    price - half_spread_units(price, spread_bps) - i * level_step_units(price)
}

pub open spec fn ask_price_at(price: u64, spread_bps: u64, i: int) -> int {
    price + half_spread_units(price, spread_bps) + i * level_step_units(price)
}

/// Decaying depth approximation: level `i` carries `volume / (i + 1)`.
pub open spec fn level_qty_at(volume: u64, i: int) -> int {
    volume as int / (i + 1)
}

/// What the book for `tick` must look like after an update with this
/// configuration.
pub open spec fn book_matches_tick(b: OrderBook, tick: TickModel, spread_bps: u64, levels: int) -> bool {
    &&& b.symbol@ == tick.symbol
    &&& b.timestamp_nanos == tick.timestamp_nanos
    &&& b.bids@.len() == levels
    &&& b.asks@.len() == levels
    &&& (forall|i: int|
        0 <= i < levels ==> (#[trigger] b.bids@[i]).price_units == bid_price_at(
            tick.price_units,
            spread_bps,
            i,
        ) && b.bids@[i].quantity == level_qty_at(tick.volume, i))
    &&& (forall|i: int|
        0 <= i < levels ==> (#[trigger] b.asks@[i]).price_units == ask_price_at(
            tick.price_units,
            spread_bps,
            i,
        ) && b.asks@[i].quantity == level_qty_at(tick.volume, i))
}

/// Books the manager stores keep every level price within twice the price
/// cap and every side within the level cap.
pub open spec fn book_bounded(b: OrderBook) -> bool {
    &&& b.bids@.len() <= MAX_LEVELS
    &&& b.asks@.len() <= MAX_LEVELS
    &&& (forall|i: int|
        0 <= i < b.bids@.len() ==> (#[trigger] b.bids@[i]).price_units <= 2 * MAX_PRICE_UNITS)
    &&& (forall|i: int|
        0 <= i < b.asks@.len() ==> (#[trigger] b.asks@[i]).price_units <= 2 * MAX_PRICE_UNITS)
}

pub open spec fn distinct_symbols(books: Seq<OrderBook>) -> bool {
    forall|i: int, j: int| 0 <= i < j < books.len() ==> books[i].symbol@ != books[j].symbol@
}

pub open spec fn has_book(books: Seq<OrderBook>, sym: Seq<u8>) -> bool {
    exists|i: int| 0 <= i < books.len() && books[i].symbol@ == sym
}

/// The book for `sym`; meaningful when `has_book` holds and symbols are
/// distinct.
pub open spec fn book_at(books: Seq<OrderBook>, sym: Seq<u8>) -> OrderBook {
    books[choose|i: int| 0 <= i < books.len() && books[i].symbol@ == sym]
}

proof fn lemma_book_at_is(books: Seq<OrderBook>, sym: Seq<u8>, i: int)
    requires
        distinct_symbols(books),
        0 <= i < books.len(),
        books[i].symbol@ == sym,
    ensures
        has_book(books, sym),
        book_at(books, sym) == books[i],
{
    assert(has_book(books, sym));
    let j = choose|j: int| 0 <= j < books.len() && books[j].symbol@ == sym;
    if i != j {
        if i < j {
            assert(books[i].symbol@ != books[j].symbol@);
        } else {
            assert(books[j].symbol@ != books[i].symbol@);
        }
    }
}

// ---------------------------------------------------------------------------
// Arithmetic bounds of the derivation
// ---------------------------------------------------------------------------
/// Level prices never leave `[0, 2 * MAX_PRICE_UNITS]`: the half-spread is
/// at most half the price and a hundred level steps stay under a hundredth
/// of it.
proof fn lemma_level_price_bounds(price: u64, spread_bps: u64, i: int)
    requires
        price <= MAX_PRICE_UNITS,
        spread_bps <= 10000,
        0 <= i < 100,
    ensures
        0 <= bid_price_at(price, spread_bps, i) <= price,
        price <= ask_price_at(price, spread_bps, i) <= 2 * MAX_PRICE_UNITS,
        half_spread_units(price, spread_bps) + i * level_step_units(price) <= price,
{
    let p = price as int;
    let half = half_spread_units(price, spread_bps);
    let step = level_step_units(price);
    assert(p * spread_bps <= p * 10000) by (nonlinear_arith)
        requires
            spread_bps <= 10000,
            p >= 0,
    ;
    vstd::arithmetic::div_mod::lemma_div_is_ordered(p * spread_bps, p * 10000, 10000);
    vstd::arithmetic::div_mod::lemma_div_by_multiple(p, 10000);
    assert((p * spread_bps) / 10000 <= p);
    assert(2 * half <= (p * spread_bps) / 10000) by {
        vstd::arithmetic::div_mod::lemma_fundamental_div_mod((p * spread_bps) / 10000, 2);
        vstd::arithmetic::div_mod::lemma_remainder_upper((p * spread_bps) / 10000, 2);
    }
    assert(10000 * step <= p) by {
        vstd::arithmetic::div_mod::lemma_fundamental_div_mod(p, 10000);
        vstd::arithmetic::div_mod::lemma_remainder_upper(p, 10000);
    }
    assert(step >= 0);
    assert(half >= 0) by {
        vstd::arithmetic::div_mod::lemma_div_pos_is_pos(p * spread_bps, 10000);
        vstd::arithmetic::div_mod::lemma_div_pos_is_pos((p * spread_bps) / 10000, 2);
        assert(p * spread_bps >= 0) by (nonlinear_arith)
            requires
                p >= 0,
                spread_bps >= 0,
        ;
    }
    assert(i * step <= 99 * step) by {
        vstd::arithmetic::mul::lemma_mul_inequality(i, 99, step);
    }
    assert(i * step >= 0) by {
        vstd::arithmetic::mul::lemma_mul_nonnegative(i, step);
    }
    assert(half + i * step <= p);
}

/// Strict ordering of the synthetic ladder. The step must be at least one
/// unit (a price of at least 10000 units) and the half-spread at least one
/// unit, else adjacent levels or the two sides collide.
pub proof fn lemma_synthetic_levels_ordered(price: u64, spread_bps: u64)
    requires
        price as int / 10000 >= 1,
        ((price * spread_bps) / 10000) / 2 >= 1,
    ensures
        forall|i: int, j: int|
            0 <= i < j ==> bid_price_at(price, spread_bps, i) > bid_price_at(
                price,
                spread_bps,
                j,
            ),
        forall|i: int, j: int|
            0 <= i < j ==> ask_price_at(price, spread_bps, i) < ask_price_at(
                price,
                spread_bps,
                j,
            ),
        bid_price_at(price, spread_bps, 0) < ask_price_at(price, spread_bps, 0),
{
    let step = level_step_units(price);
    assert forall|i: int, j: int|
        0 <= i < j implies bid_price_at(price, spread_bps, i) > bid_price_at(
        price,
        spread_bps,
        j,
    ) by {
        assert(i * step < j * step) by {
            vstd::arithmetic::mul::lemma_mul_strict_inequality(i, j, step);
        }
    };
    assert forall|i: int, j: int|
        0 <= i < j implies ask_price_at(price, spread_bps, i) < ask_price_at(
        price,
        spread_bps,
        j,
    ) by {
        assert(i * step < j * step) by {
            vstd::arithmetic::mul::lemma_mul_strict_inequality(i, j, step);
        }
    };
}

/// The ordering law at the book level: any book that an update produced
/// from a tick priced at 10000 units or more, with a half-spread of at
/// least a unit, has strictly descending bids, strictly ascending asks,
/// and its best bid below its best ask.
pub proof fn lemma_updated_book_ordered(b: OrderBook, tick: TickModel, spread_bps: u64, levels: int)
    requires
        book_matches_tick(b, tick, spread_bps, levels),
        levels >= 1,
        tick.price_units as int / 10000 >= 1,
        ((tick.price_units * spread_bps) / 10000) / 2 >= 1,
    ensures
        forall|i: int, j: int|
            0 <= i < j < levels ==> b.bids@[i].price_units > b.bids@[j].price_units,
        forall|i: int, j: int|
            0 <= i < j < levels ==> b.asks@[i].price_units < b.asks@[j].price_units,
        b.bids@[0].price_units < b.asks@[0].price_units,
{
    lemma_synthetic_levels_ordered(tick.price_units, spread_bps);
}

// ---------------------------------------------------------------------------
// VWAP, at the specification level
// ---------------------------------------------------------------------------
pub open spec fn sum_value(levels: Seq<BookLevel>) -> int
    decreases levels.len(),
{
    if levels.len() == 0 {
        0
    } else {
        levels[0].price_units * levels[0].quantity + sum_value(levels.drop_first())
    }
}

pub open spec fn sum_qty(levels: Seq<BookLevel>) -> int
    decreases levels.len(),
{
    if levels.len() == 0 {
        0
    } else {
        levels[0].quantity + sum_qty(levels.drop_first())
    }
}

/// How many levels a depth argument selects: zero means all.
pub open spec fn depth_take(levels: Seq<BookLevel>, depth: int) -> Seq<BookLevel> {
    if depth <= 0 || depth > levels.len() {
        levels
    } else {
        levels.take(depth)
    }
}

/// Volume-weighted average price over the top `depth` levels; zero — a
/// defined degenerate value, not an error — when the quantities sum to
/// zero.
pub open spec fn vwap_of(levels: Seq<BookLevel>, depth: int) -> int {
    let top = depth_take(levels, depth);
    if sum_qty(top) > 0 {
        sum_value(top) / sum_qty(top)
    } else {
        0
    }
}

pub open spec fn min_price(levels: Seq<BookLevel>) -> int
    decreases levels.len(),
{
    if levels.len() <= 1 {
        if levels.len() == 0 {
            0
        } else {
            levels[0].price_units as int
        }
    } else {
        let m = min_price(levels.drop_first());
        if levels[0].price_units <= m {
            levels[0].price_units as int
        } else {
            m
        }
    }
}

pub open spec fn max_price(levels: Seq<BookLevel>) -> int
    decreases levels.len(),
{
    if levels.len() <= 1 {
        if levels.len() == 0 {
            0
        } else {
            levels[0].price_units as int
        }
    } else {
        let m = max_price(levels.drop_first());
        if levels[0].price_units >= m {
            levels[0].price_units as int
        } else {
            m
        }
    }
}

proof fn lemma_sum_bounds(levels: Seq<BookLevel>)
    ensures
        sum_qty(levels) >= 0,
        min_price(levels) * sum_qty(levels) <= sum_value(levels),
        sum_value(levels) <= max_price(levels) * sum_qty(levels),
        min_price(levels) >= 0,
    decreases levels.len(),
{
    if levels.len() == 0 {
    } else if levels.len() == 1 {
        assert(levels.drop_first().len() == 0);
        assert(sum_value(levels.drop_first()) == 0);
        assert(sum_qty(levels.drop_first()) == 0);
        assert(sum_value(levels) == levels[0].price_units * levels[0].quantity);
        assert(sum_qty(levels) == levels[0].quantity);
    } else {
        let rest = levels.drop_first();
        lemma_sum_bounds(rest);
        let p0 = levels[0].price_units as int;
        let q0 = levels[0].quantity as int;
        let mn = min_price(levels);
        let mx = max_price(levels);
        assert(mn <= p0 && mn <= min_price(rest));
        assert(mx >= p0 && mx >= max_price(rest));
        assert(mn * q0 <= p0 * q0) by {
            vstd::arithmetic::mul::lemma_mul_inequality(mn, p0, q0);
        }
        assert(mn * sum_qty(rest) <= min_price(rest) * sum_qty(rest)) by {
            vstd::arithmetic::mul::lemma_mul_inequality(mn, min_price(rest), sum_qty(rest));
        }
        assert(mn * sum_qty(levels) == mn * q0 + mn * sum_qty(rest)) by {
            vstd::arithmetic::mul::lemma_mul_is_distributive_add(mn, q0, sum_qty(rest));
        }
        assert(p0 * q0 <= mx * q0) by {
            vstd::arithmetic::mul::lemma_mul_inequality(p0, mx, q0);
        }
        assert(max_price(rest) * sum_qty(rest) <= mx * sum_qty(rest)) by {
            vstd::arithmetic::mul::lemma_mul_inequality(max_price(rest), mx, sum_qty(rest));
        }
        assert(mx * sum_qty(levels) == mx * q0 + mx * sum_qty(rest)) by {
            vstd::arithmetic::mul::lemma_mul_is_distributive_add(mx, q0, sum_qty(rest));
        }
    }
}

/// VWAP lies within the price range of the levels it averages; with no
/// quantity it is the defined zero.
pub proof fn lemma_vwap_in_range(levels: Seq<BookLevel>, depth: int)
    ensures
        sum_qty(depth_take(levels, depth)) > 0 ==> min_price(depth_take(levels, depth))
            <= vwap_of(levels, depth) <= max_price(depth_take(levels, depth)),
        sum_qty(depth_take(levels, depth)) == 0 ==> vwap_of(levels, depth) == 0,
{
    let top = depth_take(levels, depth);
    lemma_sum_bounds(top);
    if sum_qty(top) > 0 {
        let q = sum_qty(top);
        let mn = min_price(top);
        let mx = max_price(top);
        vstd::arithmetic::div_mod::lemma_div_is_ordered(mn * q, sum_value(top), q);
        vstd::arithmetic::div_mod::lemma_div_is_ordered(sum_value(top), mx * q, q);
        vstd::arithmetic::div_mod::lemma_div_by_multiple(mn, q);
        vstd::arithmetic::div_mod::lemma_div_by_multiple(mx, q);
        assert((mn * q) / q == mn);
        assert((mx * q) / q == mx);
    }
}

// ---------------------------------------------------------------------------
// The manager
// ---------------------------------------------------------------------------
/// One order book per symbol, owned by a single writer; books are created
/// lazily on a symbol's first tick and never removed.
pub struct OrderBookManager {
    books: Vec<OrderBook>,
    spread_bps: u64,
    levels: usize,
}

impl OrderBookManager {
    pub closed spec fn wf(&self) -> bool {
        &&& 1 <= self.spread_bps <= 10000
        &&& 1 <= self.levels <= MAX_LEVELS
        &&& distinct_symbols(self.books@)
        &&& (forall|i: int| 0 <= i < self.books@.len() ==> book_bounded(#[trigger] self.books@[i]))
    }

    pub closed spec fn books_view(&self) -> Seq<OrderBook> {
        self.books@
    }

    pub closed spec fn spread_bps_view(&self) -> u64 {
        self.spread_bps
    }

    pub closed spec fn levels_view(&self) -> int {
        self.levels as int
    }

    /// A manager with the default spread and depth.
    pub fn new() -> (r: Self)
        ensures
            r.wf(),
            r.books_view() == Seq::<OrderBook>::empty(),
            r.spread_bps_view() == DEFAULT_SPREAD_BPS,
            r.levels_view() == DEFAULT_LEVELS as int,
    {
        OrderBookManager { books: Vec::new(), spread_bps: DEFAULT_SPREAD_BPS, levels: DEFAULT_LEVELS }
    }

    /// A manager with a chosen spread (basis points) and levels per side.
    pub fn with_params(spread_bps: u64, levels: usize) -> (r: Self)
        requires
            1 <= spread_bps <= 10000,
            1 <= levels <= MAX_LEVELS,
        ensures
            r.wf(),
            r.books_view() == Seq::<OrderBook>::empty(),
            r.spread_bps_view() == spread_bps,
            r.levels_view() == levels as int,
    {
        OrderBookManager { books: Vec::new(), spread_bps, levels }
    }

    fn find_index(&self, symbol: &Vec<u8>) -> (r: Option<usize>)
        ensures
            (match r {
                Some(i) => i < self.books_view().len() && self.books_view()[i as int].symbol@
                    == symbol@,
                None => !has_book(self.books_view(), symbol@),
            }),
    {
        let mut i: usize = 0;
        while i < self.books.len()
            invariant
                i <= self.books@.len(),
                forall|k: int| 0 <= k < i ==> self.books@[k].symbol@ != symbol@,
            decreases self.books@.len() - i,
        {
            if bytes_eq(&self.books[i].symbol, symbol) {
                return Some(i);
            }
            i += 1;
        }
        None
    }

    /// Builds the synthetic book for one tick.
    fn make_book(&self, tick: &MarketTick) -> (b: OrderBook)
        requires
            self.wf(),
            tick.price_units <= MAX_PRICE_UNITS,
        ensures
            book_matches_tick(b, tick@, self.spread_bps_view(), self.levels_view()),
            book_bounded(b),
    {
        let p = tick.price_units;
        proof {
            assert((p as int) * (self.spread_bps as int) <= (p as int) * 10000)
                by (nonlinear_arith)
                requires
                    self.spread_bps <= 10000,
                    p >= 0,
            ;
            assert((p as int) * 10000 <= (MAX_PRICE_UNITS as int) * 10000) by {
                vstd::arithmetic::mul::lemma_mul_inequality(
                    p as int,
                    MAX_PRICE_UNITS as int,
                    10000,
                );
            }
            vstd::arithmetic::div_mod::lemma_div_is_ordered(
                (p as int) * (self.spread_bps as int),
                (p as int) * 10000,
                10000,
            );
            vstd::arithmetic::div_mod::lemma_div_by_multiple(p as int, 10000);
        }
        let spread128: u128 = (p as u128) * (self.spread_bps as u128) / 10000;
        let half: u64 = (spread128 / 2) as u64;
        let step: u64 = p / 10000;
        let mut bids: Vec<BookLevel> = Vec::new();
        let mut asks: Vec<BookLevel> = Vec::new();
        let mut i: usize = 0;
        while i < self.levels
            invariant
                self.wf(),
                tick.price_units == p,
                p <= MAX_PRICE_UNITS,
                half as int == half_spread_units(p, self.spread_bps_view()),
                step as int == level_step_units(p),
                i <= self.levels_view(),
                bids@.len() == i,
                asks@.len() == i,
                forall|k: int|
                    0 <= k < i ==> (#[trigger] bids@[k]).price_units == bid_price_at(
                        p,
                        self.spread_bps_view(),
                        k,
                    ) && bids@[k].quantity == level_qty_at(tick.volume, k),
                forall|k: int|
                    0 <= k < i ==> (#[trigger] asks@[k]).price_units == ask_price_at(
                        p,
                        self.spread_bps_view(),
                        k,
                    ) && asks@[k].quantity == level_qty_at(tick.volume, k),
            decreases self.levels_view() - i,
        {
            proof {
                lemma_level_price_bounds(p, self.spread_bps, i as int);
            }
            let step_total: u64 = (i as u64) * step;
            proof {
                assert((i as int) * (step as int) <= 99 * (step as int)) by {
                    vstd::arithmetic::mul::lemma_mul_inequality(i as int, 99, step as int);
                }
                assert((i as int) * (step as int) >= 0) by {
                    vstd::arithmetic::mul::lemma_mul_nonnegative(i as int, step as int);
                }
            }
            let bid_p: u64 = p - half - step_total;
            let ask_p: u64 = p + half + step_total;
            let qty: u64 = tick.volume / (i as u64 + 1);
            bids.push(BookLevel { price_units: bid_p, quantity: qty });
            asks.push(BookLevel { price_units: ask_p, quantity: qty });
            i += 1;
        }
        let b = OrderBook {
            symbol: copy_bytes(&tick.symbol),
            bids,
            asks,
            timestamp_nanos: tick.timestamp_nanos,
        };
        proof {
            assert forall|k: int| 0 <= k < b.bids@.len() implies (#[trigger] b.bids@[k]).price_units
                <= 2 * MAX_PRICE_UNITS by {
                lemma_level_price_bounds(p, self.spread_bps, k);
            };
            assert forall|k: int| 0 <= k < b.asks@.len() implies (#[trigger] b.asks@[k]).price_units
                <= 2 * MAX_PRICE_UNITS by {
                lemma_level_price_bounds(p, self.spread_bps, k);
            };
        }
        b
    }

    /// Replaces (or lazily creates) the book for the tick's symbol with the
    /// synthetic ladder derived from the tick. Books of other symbols are
    /// untouched.
    pub fn update_from_tick(&mut self, tick: &MarketTick)
        requires
            old(self).wf(),
            tick.price_units <= MAX_PRICE_UNITS,
        ensures
            final(self).wf(),
            final(self).spread_bps_view() == old(self).spread_bps_view(),
            final(self).levels_view() == old(self).levels_view(),
            has_book(final(self).books_view(), tick@.symbol),
            book_matches_tick(
                book_at(final(self).books_view(), tick@.symbol),
                tick@,
                old(self).spread_bps_view(),
                old(self).levels_view(),
            ),
            forall|s: Seq<u8>|
                #[trigger] has_book(final(self).books_view(), s) <==> (has_book(
                    old(self).books_view(),
                    s,
                ) || s == tick@.symbol),
            forall|s: Seq<u8>|
                s != tick@.symbol && #[trigger] has_book(old(self).books_view(), s) ==> book_at(
                    final(self).books_view(),
                    s,
                ) == book_at(old(self).books_view(), s),
    {
        let b = self.make_book(tick);
        let ghost prev = self.books@;
        match self.find_index(&tick.symbol) {
            Some(i) => {
                proof {
                    lemma_book_at_is(prev, tick@.symbol, i as int);
                }
                self.books[i] = b;
                proof {
                    assert(self.books@ == prev.update(i as int, b));
                    assert forall|k: int|
                        0 <= k < self.books@.len() implies book_bounded(
                        #[trigger] self.books@[k],
                    ) by {
                        if k != i as int {
                            assert(self.books@[k] == prev[k]);
                        }
                    };
                    lemma_replace_preserves(prev, self.books@, i as int, tick@.symbol);
                }
            },
            None => {
                self.books.push(b);
                proof {
                    assert forall|k: int|
                        0 <= k < self.books@.len() implies book_bounded(
                        #[trigger] self.books@[k],
                    ) by {
                        if k < prev.len() {
                            assert(self.books@[k] == prev[k]);
                        }
                    };
                    lemma_push_preserves(prev, self.books@, tick@.symbol);
                }
            },
        }
    }

    /// The book for a symbol, if any tick has been seen for it.
    pub fn get_book(&self, symbol: &Vec<u8>) -> (r: Option<&OrderBook>)
        requires
            self.wf(),
        ensures
            r is Some <==> has_book(self.books_view(), symbol@),
            (match r {
                Some(b) => *b == book_at(self.books_view(), symbol@),
                None => true,
            }),
    {
        match self.find_index(symbol) {
            Some(i) => {
                proof {
                    lemma_book_at_is(self.books@, symbol@, i as int);
                }
                Some(&self.books[i])
            },
            None => None,
        }
    }

    /// Every book, in insertion order.
    pub fn get_all_books(&self) -> (r: &Vec<OrderBook>)
        ensures
            r@ == self.books_view(),
    {
        &self.books
    }

    /// Best bid and ask price for a symbol; absent when the book is missing
    /// or either side is empty.
    pub fn get_bbo(&self, symbol: &Vec<u8>) -> (r: Option<(u64, u64)>)
        requires
            self.wf(),
        ensures
            r == bbo_of(self.books_view(), symbol@),
    {
        match self.get_book(symbol) {
            Some(book) => {
                if book.bids.len() > 0 && book.asks.len() > 0 {
                    Some((book.bids[0].price_units, book.asks[0].price_units))
                } else {
                    None
                }
            },
            None => None,
        }
    }

    /// VWAP over the top `side_depth` bid levels (zero depth means all
    /// levels); absent only when the symbol has no book. A zero quantity
    /// sum yields the defined value zero.
    pub fn calculate_vwap(&self, symbol: &Vec<u8>, side_depth: usize) -> (r: Option<u64>)
        requires
            self.wf(),
        ensures
            r is Some <==> has_book(self.books_view(), symbol@),
            (match r {
                Some(v) => v as int == vwap_of(
                    book_at(self.books_view(), symbol@).bids@,
                    side_depth as int,
                ),
                None => true,
            }),
    {
        let book = match self.get_book(symbol) {
            Some(b) => b,
            None => {
                return None;
            },
        };
        let ghost all = book.bids@;
        let d: usize = if side_depth == 0 || side_depth > book.bids.len() {
            book.bids.len()
        } else {
            side_depth
        };
        proof {
            assert(depth_take(all, side_depth as int) =~= all.take(d as int));
            lemma_book_is_bounded(self.books_view(), symbol@);
        }
        let mut total_value: u128 = 0;
        let mut total_qty: u128 = 0;
        let mut k: usize = 0;
        while k < d
            invariant
                self.wf(),
                has_book(self.books_view(), symbol@),
                *book == book_at(self.books_view(), symbol@),
                all == book.bids@,
                book_bounded(*book),
                k <= d <= book.bids@.len(),
                total_value as int == sum_value(all.take(k as int)),
                total_qty as int == sum_qty(all.take(k as int)),
                total_value as int <= (k as int) * (2 * (MAX_PRICE_UNITS as int)) * (
                u64::MAX as int),
                total_qty as int <= (k as int) * (u64::MAX as int),
            decreases d - k,
        {
            let lvl = book.bids[k];
            proof {
                lemma_take_snoc_level(all, k as int);
                assert((lvl.price_units as int) * (lvl.quantity as int) <= (2 * MAX_PRICE_UNITS
                    as int) * (u64::MAX as int)) by (nonlinear_arith)
                    requires
                        0 <= lvl.price_units <= 2 * MAX_PRICE_UNITS,
                        0 <= lvl.quantity <= u64::MAX,
                ;
                assert((k + 1) * (2 * (MAX_PRICE_UNITS as int)) * (u64::MAX as int) == (
                k as int) * (2 * (MAX_PRICE_UNITS as int)) * (u64::MAX as int) + (2 * (
                MAX_PRICE_UNITS as int)) * (u64::MAX as int)) by (nonlinear_arith);
                assert((k + 1) * (u64::MAX as int) == (k as int) * (u64::MAX as int) + (
                u64::MAX as int)) by (nonlinear_arith);
                assert((k as int) * (2 * (MAX_PRICE_UNITS as int)) * (u64::MAX as int) <= 100
                    * (2 * (MAX_PRICE_UNITS as int)) * (u64::MAX as int)) by (nonlinear_arith)
                    requires
                        0 <= k <= 100,
                ;
                assert((k as int) * (u64::MAX as int) <= 100 * (u64::MAX as int))
                    by (nonlinear_arith)
                    requires
                        0 <= k <= 100,
                ;
            }
            total_value = total_value + (lvl.price_units as u128) * (lvl.quantity as u128);
            total_qty = total_qty + lvl.quantity as u128;
            k += 1;
        }
        proof {
            assert(all.take(d as int) == depth_take(all, side_depth as int));
        }
        if total_qty == 0 {
            Some(0)
        } else {
            proof {
                let top = depth_take(all, side_depth as int);
                lemma_vwap_in_range(all, side_depth as int);
                lemma_sum_bounds(top);
                assert forall|i: int|
                    0 <= i < top.len() implies (#[trigger] top[i]).price_units <= 2 * (
                MAX_PRICE_UNITS as int) by {
                    assert(top[i] == all[i]);
                };
                lemma_max_price_le(top, 2 * (MAX_PRICE_UNITS as int));
                vstd::arithmetic::div_mod::lemma_div_pos_is_pos(sum_value(top), sum_qty(top));
            }
            Some((total_value / total_qty) as u64)
        }
    }

    /// A crossed book — best bid at or above best ask — signals a data
    /// fault or an arbitrage window; it is an anomaly to surface, not an
    /// error. A missing or one-sided book is never crossed.
    pub fn is_crossed(&self, symbol: &Vec<u8>) -> (r: bool)
        requires
            self.wf(),
        ensures
            r == crossed_of(self.books_view(), symbol@),
    {
        match self.get_bbo(symbol) {
            Some((bid, ask)) => bid >= ask,
            None => false,
        }
    }

    /// Up to `num_levels` levels per side, clamped to what the book holds;
    /// absent when the symbol has no book.
    pub fn get_depth(&self, symbol: &Vec<u8>, num_levels: usize) -> (r: Option<
        (Vec<BookLevel>, Vec<BookLevel>),
    >)
        requires
            self.wf(),
        ensures
            r is Some <==> has_book(self.books_view(), symbol@),
            (match r {
                Some((bids, asks)) => {
                    let b = book_at(self.books_view(), symbol@);
                    bids@ == clamp_take(b.bids@, num_levels as int) && asks@ == clamp_take(
                        b.asks@,
                        num_levels as int,
                    )
                },
                None => true,
            }),
    {
        let book = match self.get_book(symbol) {
            Some(b) => b,
            None => {
                return None;
            },
        };
        let bids = take_levels(&book.bids, num_levels);
        let asks = take_levels(&book.asks, num_levels);
        Some((bids, asks))
    }
}

/// The best-bid/best-ask pair a symbol shows, if its book exists and both
/// sides are populated.
pub open spec fn bbo_of(books: Seq<OrderBook>, sym: Seq<u8>) -> Option<(u64, u64)> {
    if has_book(books, sym) {
        let b = book_at(books, sym);
        if b.bids@.len() > 0 && b.asks@.len() > 0 {
            Some((b.bids@[0].price_units, b.asks@[0].price_units))
        } else {
            None
        }
    } else {
        None
    }
}

/// Whether a symbol's book is crossed: best bid at or above best ask.
pub open spec fn crossed_of(books: Seq<OrderBook>, sym: Seq<u8>) -> bool {
    match bbo_of(books, sym) {
        Some((bid, ask)) => bid >= ask,
        None => false,
    }
}

/// The first `n` levels, clamped to availability.
pub open spec fn clamp_take(levels: Seq<BookLevel>, n: int) -> Seq<BookLevel> {
    if n >= levels.len() {
        levels
    } else {
        levels.take(n)
    }
}

fn take_levels(levels: &Vec<BookLevel>, n: usize) -> (r: Vec<BookLevel>)
    ensures
        r@ == clamp_take(levels@, n as int),
{
    let d: usize = if n >= levels.len() {
        levels.len()
    } else {
        n
    };
    let mut out: Vec<BookLevel> = Vec::new();
    let mut k: usize = 0;
    while k < d
        invariant
            k <= d <= levels@.len(),
            out@ == levels@.take(k as int),
        decreases d - k,
    {
        let lvl = levels[k];
        out.push(lvl);
        proof {
            assert(levels@.take(k + 1) =~= levels@.take(k as int).push(levels@[k as int]));
        }
        k += 1;
    }
    proof {
        assert(out@ =~= clamp_take(levels@, n as int));
    }
    out
}

proof fn lemma_take_snoc_level(s: Seq<BookLevel>, k: int)
    requires
        0 <= k < s.len(),
    ensures
        sum_value(s.take(k + 1)) == sum_value(s.take(k)) + s[k].price_units * s[k].quantity,
        sum_qty(s.take(k + 1)) == sum_qty(s.take(k)) + s[k].quantity,
{
    lemma_sum_snoc(s.take(k), s[k]);
    assert(s.take(k + 1) =~= s.take(k).push(s[k]));
}

proof fn lemma_sum_snoc(s: Seq<BookLevel>, lvl: BookLevel)
    ensures
        sum_value(s.push(lvl)) == sum_value(s) + lvl.price_units * lvl.quantity,
        sum_qty(s.push(lvl)) == sum_qty(s) + lvl.quantity,
    decreases s.len(),
{
    if s.len() == 0 {
        assert(s.push(lvl).drop_first() =~= Seq::<BookLevel>::empty());
        assert(s.push(lvl)[0] == lvl);
        assert(sum_value(Seq::<BookLevel>::empty()) == 0);
        assert(sum_qty(Seq::<BookLevel>::empty()) == 0);
        assert(sum_value(s) == 0);
        assert(sum_qty(s) == 0);
    } else {
        assert(s.push(lvl).drop_first() =~= s.drop_first().push(lvl));
        lemma_sum_snoc(s.drop_first(), lvl);
        assert(s.push(lvl)[0] == s[0]);
    }
}

proof fn lemma_max_price_le(s: Seq<BookLevel>, bound: int)
    requires
        forall|i: int| 0 <= i < s.len() ==> (#[trigger] s[i]).price_units <= bound,
        bound >= 0,
    ensures
        max_price(s) <= bound,
    decreases s.len(),
{
    if s.len() > 1 {
        assert forall|i: int|
            0 <= i < s.drop_first().len() implies (#[trigger] s.drop_first()[i]).price_units
            <= bound by {
            assert(s.drop_first()[i] == s[i + 1]);
        };
        lemma_max_price_le(s.drop_first(), bound);
    }
}

proof fn lemma_book_is_bounded(books: Seq<OrderBook>, sym: Seq<u8>)
    requires
        forall|i: int| 0 <= i < books.len() ==> book_bounded(#[trigger] books[i]),
        has_book(books, sym),
    ensures
        book_bounded(book_at(books, sym)),
{
    let i = choose|i: int| 0 <= i < books.len() && books[i].symbol@ == sym;
    assert(book_bounded(books[i]));
}

proof fn lemma_replace_preserves(prev: Seq<OrderBook>, cur: Seq<OrderBook>, i: int, sym: Seq<u8>)
    requires
        distinct_symbols(prev),
        0 <= i < prev.len(),
        prev[i].symbol@ == sym,
        cur.len() == prev.len(),
        cur[i].symbol@ == sym,
        forall|k: int| 0 <= k < prev.len() && k != i ==> cur[k] == prev[k],
    ensures
        distinct_symbols(cur),
        has_book(cur, sym),
        book_at(cur, sym) == cur[i],
        forall|s: Seq<u8>| #[trigger] has_book(cur, s) <==> (has_book(prev, s) || s == sym),
        forall|s: Seq<u8>|
            s != sym && #[trigger] has_book(prev, s) ==> book_at(cur, s) == book_at(prev, s),
{
    assert(distinct_symbols(cur)) by {
        assert forall|a: int, b: int|
            0 <= a < b < cur.len() implies cur[a].symbol@ != cur[b].symbol@ by {
            assert(prev[a].symbol@ != prev[b].symbol@);
        };
    }
    lemma_book_at_is(cur, sym, i);
    assert forall|s: Seq<u8>| #[trigger] has_book(cur, s) implies (has_book(prev, s) || s
        == sym) by {
        let k = choose|k: int| 0 <= k < cur.len() && cur[k].symbol@ == s;
        if k != i {
            assert(prev[k].symbol@ == s);
        }
    };
    assert forall|s: Seq<u8>| has_book(prev, s) || s == sym implies #[trigger] has_book(
        cur,
        s,
    ) by {
        if s == sym {
            assert(cur[i].symbol@ == s);
        } else if has_book(prev, s) {
            let k = choose|k: int| 0 <= k < prev.len() && prev[k].symbol@ == s;
            if k == i {
                assert(s == sym);
            } else {
                assert(cur[k].symbol@ == s);
            }
        }
    };
    assert forall|s: Seq<u8>| s != sym && #[trigger] has_book(prev, s) implies book_at(cur, s)
        == book_at(prev, s) by {
        let k = choose|k: int| 0 <= k < prev.len() && prev[k].symbol@ == s;
        assert(k != i);
        lemma_book_at_is(prev, s, k);
        lemma_book_at_is(cur, s, k);
    };
}

proof fn lemma_push_preserves(prev: Seq<OrderBook>, cur: Seq<OrderBook>, sym: Seq<u8>)
    requires
        distinct_symbols(prev),
        !has_book(prev, sym),
        cur.len() == prev.len() + 1,
        cur[prev.len() as int].symbol@ == sym,
        forall|k: int| 0 <= k < prev.len() ==> cur[k] == prev[k],
    ensures
        distinct_symbols(cur),
        has_book(cur, sym),
        book_at(cur, sym) == cur[prev.len() as int],
        forall|s: Seq<u8>| #[trigger] has_book(cur, s) <==> (has_book(prev, s) || s == sym),
        forall|s: Seq<u8>|
            s != sym && #[trigger] has_book(prev, s) ==> book_at(cur, s) == book_at(prev, s),
{
    let n = prev.len() as int;
    assert(distinct_symbols(cur)) by {
        assert forall|a: int, b: int|
            0 <= a < b < cur.len() implies cur[a].symbol@ != cur[b].symbol@ by {
            if b < n {
                assert(prev[a].symbol@ != prev[b].symbol@);
            } else {
                if cur[a].symbol@ == sym {
                    assert(prev[a].symbol@ == sym);
                    assert(has_book(prev, sym));
                }
            }
        };
    }
    lemma_book_at_is(cur, sym, n);
    assert forall|s: Seq<u8>| #[trigger] has_book(cur, s) implies (has_book(prev, s) || s
        == sym) by {
        let k = choose|k: int| 0 <= k < cur.len() && cur[k].symbol@ == s;
        if k < n {
            assert(prev[k].symbol@ == s);
        }
    };
    assert forall|s: Seq<u8>| has_book(prev, s) || s == sym implies #[trigger] has_book(
        cur,
        s,
    ) by {
        if s == sym {
            assert(cur[n].symbol@ == s);
        } else if has_book(prev, s) {
            let k = choose|k: int| 0 <= k < prev.len() && prev[k].symbol@ == s;
            assert(cur[k].symbol@ == s);
        }
    };
    assert forall|s: Seq<u8>| s != sym && #[trigger] has_book(prev, s) implies book_at(cur, s)
        == book_at(prev, s) by {
        let k = choose|k: int| 0 <= k < prev.len() && prev[k].symbol@ == s;
        lemma_book_at_is(prev, s, k);
        lemma_book_at_is(cur, s, k);
    };
}

} // verus!
