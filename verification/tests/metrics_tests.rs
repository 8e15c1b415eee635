use hft_types::gateway::OrderGateway;
use hft_types::metrics::init_metrics;
use hft_types::metrics::MetricsSnapshot;
use hft_types::Order;
use hft_types::OrderSide;

#[test]
fn metrics_start_from_zero() {
    let ctx = init_metrics();
    assert_eq!(ctx.ticks_received, 0);
    assert_eq!(ctx.signals_generated, 0);
    assert_eq!(ctx.orders_sent, 0);
    assert_eq!(ctx.latency.count(), 0);
    assert_eq!(ctx.latency.sum(), 0);
    for i in 0..13 {
        assert_eq!(ctx.latency.bin(i), 0);
    }
}

#[test]
fn histogram_buckets_observations() {
    let mut ctx = init_metrics();
    ctx.latency.observe(1); // at the first bound
    ctx.latency.observe(7); // in (5, 10]
    ctx.latency.observe(-5); // clock skew lands in the first bin
    ctx.latency.observe(20_000); // beyond the last bound
    assert_eq!(ctx.latency.bin(0), 2);
    assert_eq!(ctx.latency.bin(2), 1);
    assert_eq!(ctx.latency.bin(12), 1);
    assert_eq!(ctx.latency.count(), 4);
    assert_eq!(ctx.latency.sum(), 1 + 7 - 5 + 20_000);
}

#[test]
fn counters_count() {
    let mut ctx = init_metrics();
    ctx.inc_ticks_received();
    ctx.inc_ticks_received();
    ctx.inc_signals_generated();
    ctx.inc_orders_sent();
    assert_eq!(ctx.ticks_received, 2);
    assert_eq!(ctx.signals_generated, 1);
    assert_eq!(ctx.orders_sent, 1);
}

#[test]
fn snapshot_summarizes_the_context() {
    let mut ctx = init_metrics();
    ctx.latency.observe(10);
    ctx.latency.observe(20);
    ctx.inc_ticks_received();
    ctx.inc_orders_sent();
    let snap = MetricsSnapshot::capture(&ctx, 1_700_000_000);
    assert_eq!(snap.ticks_received, 1);
    assert_eq!(snap.orders_placed, 1);
    assert_eq!(snap.latency_mean_micros, 15);
    assert_eq!(snap.latency_p50_micros, 12); // four fifths of the mean
    assert_eq!(snap.latency_p99_micros, 22); // the mean and a half
    assert_eq!(snap.timestamp_secs, 1_700_000_000);
}

#[test]
fn snapshot_of_an_empty_histogram_is_zero() {
    let ctx = init_metrics();
    let snap = MetricsSnapshot::capture(&ctx, 1);
    assert_eq!(snap.latency_mean_micros, 0);
    assert_eq!(snap.latency_p50_micros, 0);
    assert_eq!(snap.latency_p99_micros, 0);
}

#[test]
fn gateway_assigns_sequential_ids_and_latency() {
    let mut gateway = OrderGateway::new();
    let order = Order::new(0, b"BTC/USD".to_vec(), OrderSide::Buy, 43900, 1, 1_000_000_000);
    let (id, latency) = gateway.place_order_at(&order, 1_000_500_000);
    assert_eq!(id, 1);
    assert_eq!(latency, 500);
    let (id2, latency2) = gateway.place_order_at(&order, 999_000_000);
    assert_eq!(id2, 2);
    assert_eq!(latency2, -1000); // placement clock behind the order's
}
