use hft_types::enrich;
use hft_types::BookLevel;
use hft_types::MarketTick;
use hft_types::Order;
use hft_types::OrderBook;
use hft_types::OrderSide;

#[test]
fn test_market_tick_creation() {
    let timestamp: u128 = 1_700_000_000_000_000_000;

    let tick = MarketTick::new(b"BTC/USD".to_vec(), 45000, 100, timestamp);

    assert_eq!(tick.symbol, b"BTC/USD".to_vec());
    assert_eq!(tick.price_units, 45000);
    assert_eq!(tick.volume, 100);
    assert_eq!(tick.timestamp_nanos, timestamp);
}

#[test]
fn test_order_book_operations() {
    let timestamp: u128 = 1_700_000_000_000_000_000;

    let mut book = OrderBook::new(b"BTC/USD".to_vec(), timestamp);

    // Bids sorted highest to lowest.
    book.bids.push(BookLevel { price_units: 44900, quantity: 1 });
    book.bids.push(BookLevel { price_units: 44800, quantity: 2 });

    // Asks sorted lowest to highest.
    book.asks.push(BookLevel { price_units: 45100, quantity: 1 });
    book.asks.push(BookLevel { price_units: 45200, quantity: 3 });

    assert_eq!(book.best_bid().unwrap().price_units, 44900);
    assert_eq!(book.best_ask().unwrap().price_units, 45100);
    assert_eq!(book.spread().unwrap(), 200);
    assert_eq!(book.mid_price().unwrap(), 45000);
}

#[test]
fn test_tick_latency_calculation() {
    let send_time: u128 = 1_700_000_000_000_000_000;
    let recv_time: u128 = send_time + 100_000; // 100 microseconds later

    let tick = MarketTick::new(b"BTC/USD".to_vec(), 45000, 100, send_time);
    let enriched = enrich(tick, recv_time);

    assert!(enriched.latency_micros >= 100);
    assert!(enriched.latency_micros < 1000);
}

#[test]
fn test_order_side_display() {
    assert_eq!(OrderSide::Buy.label(), "BUY");
    assert_eq!(OrderSide::Sell.label(), "SELL");
}

#[test]
fn negative_latency_is_skew_not_panic() {
    let origin: u128 = 2_000_000_000;
    let receive: u128 = 1_000_000_000; // receive clock behind origin
    let tick = MarketTick::new(b"ETH/USD".to_vec(), 2500, 7, origin);
    let enriched = enrich(tick, receive);
    assert_eq!(enriched.latency_micros, -1_000_000);
    assert!(enriched.is_skewed());
}

#[test]
fn order_construction_keeps_fields() {
    let order = Order::new(9, b"ETH/USD".to_vec(), OrderSide::Sell, 2500, 4, 77);
    assert_eq!(order.order_id, 9);
    assert_eq!(order.symbol, b"ETH/USD".to_vec());
    assert_eq!(order.side, OrderSide::Sell);
    assert_eq!(order.price_units, 2500);
    assert_eq!(order.quantity, 4);
    assert_eq!(order.timestamp_nanos, 77);
}

#[test]
fn empty_book_has_no_quotes() {
    let book = OrderBook::new(b"BTC/USD".to_vec(), 0);
    assert!(book.best_bid().is_none());
    assert!(book.best_ask().is_none());
    assert!(book.spread().is_none());
    assert!(book.mid_price().is_none());
}

#[test]
fn crossed_book_spread_is_negative() {
    let mut book = OrderBook::new(b"BTC/USD".to_vec(), 0);
    book.bids.push(BookLevel { price_units: 45200, quantity: 1 });
    book.asks.push(BookLevel { price_units: 45100, quantity: 1 });
    assert_eq!(book.spread().unwrap(), -100);
}
