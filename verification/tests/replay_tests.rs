use hft_types::replay::MarketRecorder;
use hft_types::replay::MarketReplayer;
use hft_types::replay::ReplayStats;
use hft_types::HftError;
use hft_types::MarketTick;

#[test]
fn test_record_and_replay() {
    // Record some ticks.
    let mut recorder = MarketRecorder::new();
    for i in 0..10u64 {
        let tick = MarketTick::new(
            b"BTC/USD".to_vec(),
            45000 + i,
            100,
            1_700_000_000_000_000_000 + i as u128,
        );
        recorder.record_tick(&tick);
    }
    assert_eq!(recorder.tick_count(), 10);
    let log = recorder.log_bytes().clone();

    // Replay them.
    let mut replayer = MarketReplayer::new(log.clone());
    let mut count = 0;
    while let Some(_tick) = replayer.next_tick().unwrap() {
        count += 1;
    }
    assert_eq!(count, 10);

    // Summarize.
    let stats = ReplayStats::from_file(&log).unwrap();
    assert_eq!(stats.total_ticks, 10);
    assert!(stats.symbols.contains(&b"BTC/USD".to_vec()));
}

#[test]
fn replay_scenario_ten_ticks_in_order() {
    // Ten identical ticks with increasing origin times.
    let base: u128 = 1_700_000_000_000_000_000;
    let mut recorder = MarketRecorder::new();
    let mut originals = Vec::new();
    for i in 0..10u128 {
        let tick = MarketTick::new(b"BTC/USD".to_vec(), 45000, 100, base + i * 1_000_000);
        recorder.record_tick(&tick);
        originals.push(tick);
    }
    let log = recorder.log_bytes().clone();

    let mut replayer = MarketReplayer::new(log.clone());
    let mut replayed = Vec::new();
    while let Some(tick) = replayer.next_tick().unwrap() {
        replayed.push(tick);
    }
    // Same ticks, same order, field for field.
    assert_eq!(replayed, originals);
    assert_eq!(replayer.tick_count(), 10);
    // A further read still reports end of stream.
    assert!(replayer.next_tick().unwrap().is_none());

    let stats = ReplayStats::from_file(&log).unwrap();
    assert_eq!(stats.total_ticks, 10);
    assert_eq!(stats.start_timestamp, base);
    assert_eq!(stats.end_timestamp, base + 9_000_000);
    assert_eq!(stats.duration_ms, 9);
    assert_eq!(stats.symbols, vec![b"BTC/USD".to_vec()]);
}

#[test]
fn replay_round_trips_awkward_symbols() {
    // Quotes, backslashes, control bytes and non-ASCII all survive.
    let symbol: Vec<u8> = vec![0x22, 0x5c, 0x00, 0x1f, 0x7f, 0xff, b'A', b'/', b'B'];
    let tick = MarketTick::new(symbol, 1, 2, 3);
    let mut recorder = MarketRecorder::new();
    recorder.record_tick(&tick);
    let mut replayer = MarketReplayer::new(recorder.log_bytes().clone());
    let back = replayer.next_tick().unwrap().unwrap();
    assert_eq!(back, tick);
    assert!(replayer.next_tick().unwrap().is_none());
}

#[test]
fn malformed_line_is_fatal_to_replay() {
    let mut replayer = MarketReplayer::new(b"not a tick line\n".to_vec());
    assert_eq!(replayer.next_tick(), Err(HftError::SerializationError));
    assert_eq!(replayer.tick_count(), 0);
}

#[test]
fn malformed_line_fails_stats_pass() {
    let mut recorder = MarketRecorder::new();
    recorder.record_tick(&MarketTick::new(b"BTC/USD".to_vec(), 1, 1, 1));
    let mut log = recorder.log_bytes().clone();
    log.extend_from_slice(b"{\"symbol\":broken\n");
    assert_eq!(ReplayStats::from_file(&log), Err(HftError::SerializationError));
}

#[test]
fn stats_of_empty_log() {
    let stats = ReplayStats::from_file(&Vec::new()).unwrap();
    assert_eq!(stats.total_ticks, 0);
    assert_eq!(stats.duration_ms, 0);
    assert!(stats.symbols.is_empty());
}

#[test]
fn stats_collect_distinct_symbols_in_first_seen_order() {
    let mut recorder = MarketRecorder::new();
    for (sym, ts) in [(&b"BTC/USD"[..], 1u128), (b"ETH/USD", 2), (b"BTC/USD", 3)] {
        recorder.record_tick(&MarketTick::new(sym.to_vec(), 10, 1, ts));
    }
    let stats = ReplayStats::from_file(recorder.log_bytes()).unwrap();
    assert_eq!(stats.total_ticks, 3);
    assert_eq!(stats.symbols, vec![b"BTC/USD".to_vec(), b"ETH/USD".to_vec()]);
    assert_eq!(stats.duration_ms, 0); // two nanoseconds apart
}

#[test]
fn stats_clamp_backwards_clocks_to_zero() {
    let mut recorder = MarketRecorder::new();
    recorder.record_tick(&MarketTick::new(b"BTC/USD".to_vec(), 10, 1, 5_000_000));
    recorder.record_tick(&MarketTick::new(b"BTC/USD".to_vec(), 10, 1, 1_000_000));
    let stats = ReplayStats::from_file(recorder.log_bytes()).unwrap();
    assert_eq!(stats.duration_ms, 0);
}

#[test]
fn replay_all_returns_every_tick_in_order() {
    let mut recorder = MarketRecorder::new();
    let mut originals = Vec::new();
    for i in 0..5u64 {
        let tick = MarketTick::new(b"ETH/USD".to_vec(), 2500 + i, i, i as u128);
        recorder.record_tick(&tick);
        originals.push(tick);
    }
    assert_eq!(hft_types::replay::replay_all(recorder.log_bytes()).unwrap(), originals);
    assert!(hft_types::replay::replay_all(&b"broken\n".to_vec()).is_err());
}
