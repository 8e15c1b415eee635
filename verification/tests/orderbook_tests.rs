use hft_types::orderbook::OrderBookManager;
use hft_types::MarketTick;

fn tick(symbol: &[u8], price_units: u64, volume: u64, ts: u128) -> MarketTick {
    MarketTick::new(symbol.to_vec(), price_units, volume, ts)
}

#[test]
fn test_orderbook_manager() {
    let mut manager = OrderBookManager::new();

    let t = tick(b"BTC/USD", 45000, 100, 1_700_000_000_000_000_000);

    manager.update_from_tick(&t);

    let book = manager.get_book(&b"BTC/USD".to_vec()).unwrap();
    assert_eq!(book.bids.len(), 5);
    assert_eq!(book.asks.len(), 5);

    let (bid, ask) = manager.get_bbo(&b"BTC/USD".to_vec()).unwrap();
    assert!(bid < ask);
    assert!(!manager.is_crossed(&b"BTC/USD".to_vec()));

    let vwap = manager.calculate_vwap(&b"BTC/USD".to_vec(), 3).unwrap();
    assert!(vwap > 0);
}

#[test]
fn synthetic_levels_follow_the_formula() {
    // price 45000, spread 10 bps: spread 45, half 22, step 4.
    let mut manager = OrderBookManager::new();
    manager.update_from_tick(&tick(b"BTC/USD", 45000, 100, 7));
    let book = manager.get_book(&b"BTC/USD".to_vec()).unwrap();
    let bid_prices: Vec<u64> = book.bids.iter().map(|l| l.price_units).collect();
    let ask_prices: Vec<u64> = book.asks.iter().map(|l| l.price_units).collect();
    assert_eq!(bid_prices, vec![44978, 44974, 44970, 44966, 44962]);
    assert_eq!(ask_prices, vec![45022, 45026, 45030, 45034, 45038]);
    let quantities: Vec<u64> = book.bids.iter().map(|l| l.quantity).collect();
    assert_eq!(quantities, vec![100, 50, 33, 25, 20]);
    assert_eq!(book.timestamp_nanos, 7);
}

#[test]
fn vwap_exact_value_over_top_three_levels() {
    let mut manager = OrderBookManager::new();
    manager.update_from_tick(&tick(b"BTC/USD", 45000, 100, 1));
    // (44978*100 + 44974*50 + 44970*33) / 183 = 44975 (truncated)
    assert_eq!(manager.calculate_vwap(&b"BTC/USD".to_vec(), 3), Some(44975));
}

#[test]
fn vwap_depth_zero_means_all_levels() {
    let mut manager = OrderBookManager::new();
    manager.update_from_tick(&tick(b"BTC/USD", 45000, 100, 1));
    let all = manager.calculate_vwap(&b"BTC/USD".to_vec(), 0).unwrap();
    let five = manager.calculate_vwap(&b"BTC/USD".to_vec(), 5).unwrap();
    assert_eq!(all, five);
}

#[test]
fn vwap_zero_quantity_sum_is_zero() {
    let mut manager = OrderBookManager::new();
    manager.update_from_tick(&tick(b"BTC/USD", 45000, 0, 1));
    assert_eq!(manager.calculate_vwap(&b"BTC/USD".to_vec(), 0), Some(0));
}

#[test]
fn vwap_missing_symbol_is_absent() {
    let manager = OrderBookManager::new();
    assert_eq!(manager.calculate_vwap(&b"BTC/USD".to_vec(), 3), None);
    assert_eq!(manager.get_bbo(&b"BTC/USD".to_vec()), None);
    assert!(!manager.is_crossed(&b"BTC/USD".to_vec()));
}

#[test]
fn update_replaces_book_and_keeps_others() {
    let mut manager = OrderBookManager::new();
    manager.update_from_tick(&tick(b"BTC/USD", 45000, 100, 1));
    manager.update_from_tick(&tick(b"ETH/USD", 2500, 10, 2));
    manager.update_from_tick(&tick(b"BTC/USD", 46000, 50, 3));
    assert_eq!(manager.get_all_books().len(), 2);
    let btc = manager.get_book(&b"BTC/USD".to_vec()).unwrap();
    assert_eq!(btc.timestamp_nanos, 3);
    // spread of 46000 at 10 bps is 46, half 23.
    assert_eq!(btc.bids[0].price_units, 46000 - 23);
    let eth = manager.get_book(&b"ETH/USD".to_vec()).unwrap();
    assert_eq!(eth.timestamp_nanos, 2);
}

#[test]
fn depth_clamps_to_available_levels() {
    let mut manager = OrderBookManager::new();
    manager.update_from_tick(&tick(b"BTC/USD", 45000, 100, 1));
    let (bids, asks) = manager.get_depth(&b"BTC/USD".to_vec(), 3).unwrap();
    assert_eq!(bids.len(), 3);
    assert_eq!(asks.len(), 3);
    let (bids, asks) = manager.get_depth(&b"BTC/USD".to_vec(), 99).unwrap();
    assert_eq!(bids.len(), 5);
    assert_eq!(asks.len(), 5);
    assert!(manager.get_depth(&b"SOL/USD".to_vec(), 3).is_none());
}

#[test]
fn custom_spread_separates_sides_more() {
    let mut manager = OrderBookManager::with_params(100, 5); // 1% spread
    manager.update_from_tick(&tick(b"BTC/USD", 45000, 100, 1));
    // spread 450, half 225.
    let (bid, ask) = manager.get_bbo(&b"BTC/USD".to_vec()).unwrap();
    assert_eq!(bid, 45000 - 225);
    assert_eq!(ask, 45000 + 225);
}
