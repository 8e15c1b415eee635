use hft_types::codec::decode_record_bytes;
use hft_types::codec::encode_record_bytes;
use hft_types::enrich;
use hft_types::transport::BoundedChannel;
use hft_types::transport::ingest_packet;
use hft_types::transport::IngestOutcome;
use hft_types::transport::IngestStats;
use hft_types::transport::RecvOutcome;
use hft_types::transport::SendOutcome;
use hft_types::EnrichedTick;
use hft_types::MarketTick;

fn some_tick(price_units: u64) -> MarketTick {
    MarketTick::new(b"BTC/USD".to_vec(), price_units, 100, 1_700_000_000_000_000_000)
}

fn some_enriched(price_units: u64) -> EnrichedTick {
    enrich(some_tick(price_units), 1_700_000_000_000_100_000)
}

#[test]
fn wire_codec_round_trips_a_tick() {
    let tick = some_tick(45000);
    let bytes = encode_record_bytes(&tick);
    assert_eq!(decode_record_bytes(&bytes).unwrap(), tick);
}

#[test]
fn wire_record_reads_as_expected_text() {
    let tick = MarketTick::new(b"BTC/USD".to_vec(), 45000, 100, 17);
    let bytes = encode_record_bytes(&tick);
    assert_eq!(
        bytes,
        b"{\"symbol\":\"BTC/USD\",\"price_units\":45000,\"volume\":100,\"timestamp_nanos\":17}"
            .to_vec()
    );
}

#[test]
fn wire_codec_escapes_and_restores_symbols() {
    let tick = MarketTick::new(vec![0x22, 0x5c, 0x07, 0x80], u64::MAX, 0, u128::MAX);
    let bytes = encode_record_bytes(&tick);
    assert_eq!(decode_record_bytes(&bytes).unwrap(), tick);
}

#[test]
fn wire_codec_rejects_garbage() {
    assert!(decode_record_bytes(&b"hello".to_vec()).is_err());
    assert!(decode_record_bytes(&Vec::new()).is_err());
    // Trailing bytes after a record are not one tick packet.
    let mut bytes = encode_record_bytes(&some_tick(1));
    bytes.push(b' ');
    assert!(decode_record_bytes(&bytes).is_err());
}

#[test]
fn channel_is_fifo_and_drops_newest_when_full() {
    let mut chan = BoundedChannel::new(2);
    assert!(matches!(chan.try_send(some_enriched(1)), SendOutcome::Sent));
    assert!(matches!(chan.try_send(some_enriched(2)), SendOutcome::Sent));
    match chan.try_send(some_enriched(3)) {
        SendOutcome::Full(t) => assert_eq!(t.tick.price_units, 3),
        _ => panic!("expected the newest item rejected"),
    }
    // The two older items are intact and come out in order.
    match chan.pop() {
        RecvOutcome::Item(t) => assert_eq!(t.tick.price_units, 1),
        _ => panic!("expected an item"),
    }
    match chan.pop() {
        RecvOutcome::Item(t) => assert_eq!(t.tick.price_units, 2),
        _ => panic!("expected an item"),
    }
    assert!(matches!(chan.pop(), RecvOutcome::Empty));
}

#[test]
fn closed_channel_rejects_sends_and_drains() {
    let mut chan = BoundedChannel::new(4);
    assert!(matches!(chan.try_send(some_enriched(1)), SendOutcome::Sent));
    chan.close();
    assert!(matches!(chan.try_send(some_enriched(2)), SendOutcome::Closed(_)));
    // Buffered items drain before the terminal condition.
    assert!(matches!(chan.pop(), RecvOutcome::Item(_)));
    assert!(matches!(chan.pop(), RecvOutcome::Disconnected));
}

#[test]
fn ingest_forwards_well_formed_packets() {
    let mut stats = IngestStats::new();
    let mut chan = BoundedChannel::new(10);
    let bytes = encode_record_bytes(&some_tick(45000));
    let outcome = ingest_packet(&mut stats, &mut chan, &bytes, 1_700_000_000_000_100_000);
    assert_eq!(outcome, IngestOutcome::Forwarded);
    assert_eq!(stats.ticks_received, 1);
    assert_eq!(stats.parse_errors, 0);
    assert_eq!(stats.dropped, 0);
    assert_eq!(chan.len(), 1);
    match chan.pop() {
        RecvOutcome::Item(t) => {
            assert_eq!(t.tick, some_tick(45000));
            assert_eq!(t.receive_time_nanos, 1_700_000_000_000_100_000);
            assert_eq!(t.latency_micros, 100);
        },
        _ => panic!("expected the forwarded tick"),
    }
}

#[test]
fn ingest_drops_malformed_packets_and_continues() {
    let mut stats = IngestStats::new();
    let mut chan = BoundedChannel::new(10);
    let outcome = ingest_packet(&mut stats, &mut chan, &b"junk".to_vec(), 5);
    assert_eq!(outcome, IngestOutcome::Malformed);
    assert_eq!(stats.parse_errors, 1);
    assert_eq!(stats.ticks_received, 0);
    assert_eq!(chan.len(), 0);
    // The next good packet still goes through.
    let bytes = encode_record_bytes(&some_tick(45000));
    assert_eq!(ingest_packet(&mut stats, &mut chan, &bytes, 6), IngestOutcome::Forwarded);
}

#[test]
fn ingest_counts_drops_on_a_full_channel() {
    let mut stats = IngestStats::new();
    let mut chan = BoundedChannel::new(1);
    let bytes = encode_record_bytes(&some_tick(45000));
    assert_eq!(ingest_packet(&mut stats, &mut chan, &bytes, 1), IngestOutcome::Forwarded);
    assert_eq!(ingest_packet(&mut stats, &mut chan, &bytes, 2), IngestOutcome::Dropped);
    assert_eq!(stats.ticks_received, 2);
    assert_eq!(stats.dropped, 1);
    assert_eq!(chan.len(), 1);
}

#[test]
fn ingest_reports_a_closed_channel() {
    let mut stats = IngestStats::new();
    let mut chan = BoundedChannel::new(1);
    chan.close();
    let bytes = encode_record_bytes(&some_tick(45000));
    assert_eq!(ingest_packet(&mut stats, &mut chan, &bytes, 1), IngestOutcome::ChannelClosed);
    assert_eq!(stats.dropped, 1);
}

#[test]
fn forward_packet_over_crossbeam_transport() {
    let mut stats = IngestStats::new();
    let (tx, rx) = crossbeam::channel::bounded::<EnrichedTick>(2);
    let bytes = encode_record_bytes(&some_tick(45000));
    assert_eq!(
        hft_types::transport::forward_packet(&mut stats, &tx, &bytes, 7),
        IngestOutcome::Forwarded
    );
    assert_eq!(
        hft_types::transport::forward_packet(&mut stats, &tx, &b"junk".to_vec(), 8),
        IngestOutcome::Malformed
    );
    assert_eq!(stats.ticks_received, 1);
    assert_eq!(stats.parse_errors, 1);
    let got = rx.try_recv().unwrap();
    assert_eq!(got.tick, some_tick(45000));
    // With the receiver gone the transport reports closure.
    drop(rx);
    assert_eq!(
        hft_types::transport::forward_packet(&mut stats, &tx, &bytes, 9),
        IngestOutcome::ChannelClosed
    );
    assert_eq!(stats.dropped, 1);
}
