//! The order gateway's accounting: sequential order ids and the
//! placement latency of each order. Sending the order out and logging it
//! are the process edge's work.

use vstd::prelude::*;

use crate::Order;
use crate::latency_micros_of;

verus! {

/// Assigns order ids and measures placement latency.
pub struct OrderGateway {
    order_id: u64,
}

impl OrderGateway {
    /// Ids handed out so far; the next order gets the successor.
    pub closed spec fn order_id_view(&self) -> u64 {
        self.order_id
    }

    pub fn new() -> (r: Self)
        ensures
            r.order_id_view() == 0,
    {
        OrderGateway { order_id: 0 }
    }

    /// The last id handed out, for callers that must check headroom
    /// before placing.
    pub fn current_order_id(&self) -> (r: u64)
        ensures
            r == self.order_id_view(),
    {
        self.order_id
    }

    /// Accounts for one placed order at an explicit placement time: the
    /// next sequential id, and the signed microsecond latency from the
    /// order's timestamp to placement.
    pub fn place_order_at(&mut self, order: &Order, placed_time_nanos: u128) -> (r: (u64, i128))
        requires
            old(self).order_id_view() < u64::MAX,
        ensures
            final(self).order_id_view() == old(self).order_id_view() + 1,
            r.0 == final(self).order_id_view(),
            r.1 as int == latency_micros_of(order.timestamp_nanos, placed_time_nanos),
    {
        self.order_id = self.order_id + 1;
        let enriched = crate::enrich(
            crate::MarketTick {
                symbol: Vec::new(),
                price_units: 0,
                volume: 0,
                timestamp_nanos: order.timestamp_nanos,
            },
            placed_time_nanos,
        );
        (self.order_id, enriched.latency_micros)
    }

    /// Accounts for one placed order at the wall clock: the latency is
    /// against whatever the clock read.
    pub fn place_order(&mut self, order: &Order) -> (r: (u64, i128))
        requires
            old(self).order_id_view() < u64::MAX,
        ensures
            final(self).order_id_view() == old(self).order_id_view() + 1,
            r.0 == final(self).order_id_view(),
            exists|now: u128| r.1 as int == latency_micros_of(order.timestamp_nanos, now),
    {
        let now = crate::now_nanos();
        let r = self.place_order_at(order, now);
        proof {
            assert(r.1 as int == latency_micros_of(order.timestamp_nanos, now));
        }
        r
    }
}

} // verus!
