use hft_types::enrich;
use hft_types::strategies::MarketMakingStrategy;
use hft_types::strategies::MeanReversionStrategy;
use hft_types::strategies::Strategy;
use hft_types::strategies::ThresholdStrategy;
use hft_types::EnrichedTick;
use hft_types::MarketTick;
use hft_types::OrderSide;
use hft_types::SignalType;

fn enriched(symbol: &[u8], price_units: u64, ts: u128) -> EnrichedTick {
    let tick = MarketTick::new(symbol.to_vec(), price_units, 100, ts);
    enrich(tick, ts + 10_000)
}

#[test]
fn test_threshold_strategy() {
    let thresholds = vec![(b"BTC/USD".to_vec(), (44000u64, 46000u64))];

    let mut strategy = ThresholdStrategy::new(thresholds, 1);

    let e = enriched(b"BTC/USD", 43500, 1_700_000_000_000_000_000);

    let signal = strategy.process_tick(&e);
    assert!(signal.is_some());
    assert_eq!(signal.unwrap().side, OrderSide::Buy);
}

#[test]
fn threshold_scenario_buy_with_configured_size() {
    // Band (44000, 46000); a tick at 43500 is below the band.
    let mut strategy = ThresholdStrategy::new(vec![(b"BTC/USD".to_vec(), (44000, 46000))], 25);
    let signal = strategy.process_tick_at(&enriched(b"BTC/USD", 43500, 50), 999).unwrap();
    assert_eq!(signal.side, OrderSide::Buy);
    assert_eq!(signal.quantity, 25);
    assert_eq!(signal.price_units, 43500);
    assert_eq!(signal.symbol, b"BTC/USD".to_vec());
    assert_eq!(signal.signal_type, SignalType::Threshold);
    assert_eq!(signal.timestamp_nanos, 999);
}

#[test]
fn threshold_above_band_sells_within_band_rests() {
    let mut strategy = ThresholdStrategy::new(vec![(b"BTC/USD".to_vec(), (44000, 46000))], 1);
    let sell = strategy.process_tick_at(&enriched(b"BTC/USD", 47000, 1), 2).unwrap();
    assert_eq!(sell.side, OrderSide::Sell);
    assert!(strategy.process_tick_at(&enriched(b"BTC/USD", 45000, 1), 2).is_none());
    // Band edges are inside the band: no signal at exactly low or high.
    assert!(strategy.process_tick_at(&enriched(b"BTC/USD", 44000, 1), 2).is_none());
    assert!(strategy.process_tick_at(&enriched(b"BTC/USD", 46000, 1), 2).is_none());
}

#[test]
fn threshold_unknown_symbol_never_signals() {
    let mut strategy = ThresholdStrategy::new(vec![(b"BTC/USD".to_vec(), (44000, 46000))], 1);
    assert!(strategy.process_tick_at(&enriched(b"DOGE/USD", 1, 1), 2).is_none());
}

#[test]
fn test_mean_reversion_strategy() {
    let mut strategy = MeanReversionStrategy::new(5, 150, 1);

    // Build history.
    for price in [45000u64, 45100, 45000, 45050, 45000] {
        let _ = strategy.process_tick(&enriched(b"BTC/USD", price, 1));
    }

    // A much higher outlier.
    let signal = strategy.process_tick(&enriched(b"BTC/USD", 50000, 2));
    assert!(signal.is_some());
    assert_eq!(signal.unwrap().side, OrderSide::Sell);
}

#[test]
fn mean_reversion_low_outlier_buys() {
    let mut strategy = MeanReversionStrategy::new(5, 150, 3);
    for price in [45000u64, 45100, 45000, 45050, 45000] {
        let _ = strategy.process_tick_at(&enriched(b"BTC/USD", price, 1), 7);
    }
    let signal = strategy.process_tick_at(&enriched(b"BTC/USD", 35000, 2), 7).unwrap();
    assert_eq!(signal.side, OrderSide::Buy);
    assert_eq!(signal.quantity, 3);
    assert_eq!(signal.signal_type, SignalType::MeanReversion);
}

#[test]
fn mean_reversion_quiet_until_window_full() {
    let mut strategy = MeanReversionStrategy::new(5, 150, 1);
    for price in [45000u64, 45100, 45000, 45050] {
        assert!(strategy.process_tick_at(&enriched(b"BTC/USD", price, 1), 7).is_none());
    }
}

#[test]
fn mean_reversion_constant_window_never_signals() {
    let mut strategy = MeanReversionStrategy::new(3, 150, 1);
    for _ in 0..10 {
        assert!(strategy.process_tick_at(&enriched(b"BTC/USD", 45000, 1), 7).is_none());
    }
}

#[test]
fn market_making_always_quotes_below_price() {
    let mut strategy = MarketMakingStrategy::new(10, 2);
    // offset at 10 bps of 45000 is 45.
    let signal = strategy.process_tick_at(&enriched(b"BTC/USD", 45000, 1), 11).unwrap();
    assert_eq!(signal.side, OrderSide::Buy);
    assert_eq!(signal.price_units, 45000 - 45);
    assert_eq!(signal.quantity, 2);
    assert_eq!(signal.signal_type, SignalType::MarketMaking);
    assert_eq!(signal.timestamp_nanos, 11);
    // Every tick quotes, whatever the symbol.
    assert!(strategy.process_tick_at(&enriched(b"SOL/USD", 100, 2), 12).is_some());
}

#[test]
fn strategy_sum_type_dispatches() {
    let mut strategies = vec![
        Strategy::Threshold(ThresholdStrategy::new(
            vec![(b"BTC/USD".to_vec(), (44000, 46000))],
            1,
        )),
        Strategy::MarketMaking(MarketMakingStrategy::new(10, 1)),
        Strategy::MeanReversion(MeanReversionStrategy::new(5, 150, 1)),
    ];
    assert_eq!(strategies[0].name(), "ThresholdStrategy");
    assert_eq!(strategies[1].name(), "MarketMakingStrategy");
    assert_eq!(strategies[2].name(), "MeanReversionStrategy");
    let e = enriched(b"BTC/USD", 43500, 1);
    let signals: Vec<_> = strategies
        .iter_mut()
        .map(|s| s.process_tick_at(&e, 5))
        .collect();
    assert_eq!(signals[0].as_ref().unwrap().side, OrderSide::Buy);
    assert_eq!(signals[1].as_ref().unwrap().side, OrderSide::Buy);
    assert!(signals[2].is_none()); // window not yet full
}

#[test]
fn strategies_keep_symbols_apart() {
    let mut strategy = MeanReversionStrategy::new(2, 150, 1);
    // Fill BTC's window; ETH stays empty, so ETH never signals here.
    let _ = strategy.process_tick_at(&enriched(b"BTC/USD", 45000, 1), 7);
    let _ = strategy.process_tick_at(&enriched(b"BTC/USD", 45000, 2), 7);
    assert!(strategy.process_tick_at(&enriched(b"ETH/USD", 99000, 3), 7).is_none());
}
