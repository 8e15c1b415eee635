use hft_types::messaging::parse_frame;
use hft_types::messaging::Message;
use hft_types::messaging::MessageFrame;
use hft_types::MarketTick;

#[test]
fn frame_round_trips_over_the_wire() {
    let payload = b"{\"kind\":\"heartbeat\"}".to_vec();
    let frame = MessageFrame::new(payload.clone()).unwrap();
    assert_eq!(frame.length as usize, payload.len());
    let bytes = frame.to_bytes();
    assert_eq!(bytes.len(), 4 + payload.len());
    let (parsed, consumed) = parse_frame(&bytes).unwrap();
    assert_eq!(consumed, bytes.len());
    assert_eq!(parsed.length, frame.length);
    assert_eq!(parsed.payload, payload);
}

#[test]
fn frame_prefix_is_big_endian() {
    let frame = MessageFrame::from_length_and_payload(0x01020304, Vec::new());
    let bytes = frame.to_bytes();
    assert_eq!(bytes, vec![1, 2, 3, 4]);
}

#[test]
fn short_streams_are_not_yet_frames() {
    assert!(parse_frame(&vec![0, 0]).is_none());
    // A prefix announcing more payload than is present.
    assert!(parse_frame(&vec![0, 0, 0, 5, 1, 2]).is_none());
}

#[test]
fn frame_parse_leaves_trailing_stream_alone() {
    let frame = MessageFrame::new(b"abc".to_vec()).unwrap();
    let mut bytes = frame.to_bytes();
    bytes.extend_from_slice(b"rest of stream");
    let (parsed, consumed) = parse_frame(&bytes).unwrap();
    assert_eq!(consumed, 7);
    assert_eq!(parsed.payload, b"abc".to_vec());
}

#[test]
fn message_variants_carry_pipeline_values() {
    let tick = MarketTick::new(b"BTC/USD".to_vec(), 45000, 100, 1);
    let m = Message::Tick(tick.clone());
    match m {
        Message::Tick(t) => assert_eq!(t, tick),
        _ => panic!("expected a tick message"),
    }
    let hb = Message::Heartbeat { sender: b"feed".to_vec(), timestamp: 9 };
    match hb {
        Message::Heartbeat { sender, timestamp } => {
            assert_eq!(sender, b"feed".to_vec());
            assert_eq!(timestamp, 9);
        },
        _ => panic!("expected a heartbeat"),
    }
    assert!(matches!(Message::Shutdown, Message::Shutdown));
}
