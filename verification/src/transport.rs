//! The bounded transport channel and the ingestion path in front of it.
//!
//! The channel is a fixed-capacity FIFO with a drop-on-full policy: a full
//! channel rejects the newest item — it never blocks the producer and
//! never evicts older queued items. A closed channel is terminal for
//! consumers, who may still drain what is buffered. `BoundedChannel` is
//! that policy verified; at the process edge the same tick flow can run
//! over a crossbeam channel for real cross-thread transport, through
//! `forward_packet`.
//!
//! Ingestion accepts raw bytes for one tick. A malformed packet is a
//! local, recoverable error — the packet is dropped, a counter bumped, and
//! the loop goes on. A full channel likewise drops the tick and counts it:
//! freshness is preferred over completeness.

use vstd::prelude::*;

use crate::EnrichedTick;
use crate::codec::decode_record_bytes;
use crate::codec::wire_ok;
use crate::codec::wire_tick;
use crate::bump;
use crate::enrich;
use crate::latency_micros_of;

verus! {

/// Outcome of a non-blocking send.
#[derive(Debug)]
pub enum SendOutcome {
    Sent,
    /// The channel was at capacity; the item comes back to the caller.
    Full(EnrichedTick),
    /// The channel was closed (or its consumers gone); the item comes
    /// back.
    Closed(EnrichedTick),
}

/// Outcome of a non-blocking receive.
#[derive(Debug)]
pub enum RecvOutcome {
    Item(EnrichedTick),
    Empty,
    /// Closed and drained: the terminal condition for a consumer, not an
    /// error.
    Disconnected,
}

/// A fixed-capacity FIFO queue of enriched ticks with drop-on-full
/// overflow and a cooperative close. This verifies the channel's policy;
/// the sole cross-thread instantiation at the process edge carries the
/// same items over an outside channel.
pub struct BoundedChannel {
    items: Vec<EnrichedTick>,
    capacity: usize,
    closed: bool,
}

impl BoundedChannel {
    pub closed spec fn wf(&self) -> bool {
        &&& self.capacity >= 1
        &&& self.items@.len() <= self.capacity
    }

    /// Queued items, oldest first.
    pub closed spec fn items_view(&self) -> Seq<EnrichedTick> {
        self.items@
    }

    pub closed spec fn capacity_view(&self) -> int {
        self.capacity as int
    }

    pub closed spec fn is_closed(&self) -> bool {
        self.closed
    }

    pub fn new(capacity: usize) -> (r: Self)
        requires
            capacity >= 1,
        ensures
            r.wf(),
            r.items_view() == Seq::<EnrichedTick>::empty(),
            r.capacity_view() == capacity as int,
            !r.is_closed(),
    {
        BoundedChannel { items: Vec::new(), capacity, closed: false }
    }

    /// Non-blocking enqueue. A full channel rejects this newest item and
    /// keeps everything it holds; a closed channel likewise. Never blocks.
    pub fn try_send(&mut self, t: EnrichedTick) -> (r: SendOutcome)
        requires
            old(self).wf(),
        ensures
            final(self).wf(),
            final(self).capacity_view() == old(self).capacity_view(),
            final(self).is_closed() == old(self).is_closed(),
            old(self).is_closed() ==> (match r {
                SendOutcome::Closed(x) => x == t && final(self).items_view() == old(self).items_view(),
                _ => false,
            }),
            !old(self).is_closed() && old(self).items_view().len() == old(self).capacity_view()
                ==> (match r {
                SendOutcome::Full(x) => x == t && final(self).items_view() == old(self).items_view(),
                _ => false,
            }),
            !old(self).is_closed() && old(self).items_view().len() < old(self).capacity_view()
                ==> r is Sent && final(self).items_view() == old(self).items_view().push(t),
    {
        if self.closed {
            return SendOutcome::Closed(t);
        }
        if self.items.len() == self.capacity {
            return SendOutcome::Full(t);
        }
        self.items.push(t);
        SendOutcome::Sent
    }

    /// Non-blocking dequeue in enqueue order. Items buffered before a
    /// close still drain; only a drained, closed channel reports the
    /// terminal `Disconnected`.
    pub fn pop(&mut self) -> (r: RecvOutcome)
        requires
            old(self).wf(),
        ensures
            final(self).wf(),
            final(self).capacity_view() == old(self).capacity_view(),
            final(self).is_closed() == old(self).is_closed(),
            old(self).items_view().len() > 0 ==> (match r {
                RecvOutcome::Item(x) => x == old(self).items_view()[0] && final(self).items_view() == old(self).items_view().drop_first(),
                _ => false,
            }),
            old(self).items_view().len() == 0 && old(self).is_closed() ==> r is Disconnected
                && final(self).items_view() == old(self).items_view(),
            old(self).items_view().len() == 0 && !old(self).is_closed() ==> r is Empty && final(self).items_view() == old(self).items_view(),
    {
        if self.items.len() > 0 {
            let x = self.items.remove(0);
            proof {
                assert(self.items@ =~= old(self).items@.drop_first());
            }
            return RecvOutcome::Item(x);
        }
        if self.closed {
            RecvOutcome::Disconnected
        } else {
            RecvOutcome::Empty
        }
    }

    /// The cooperative stop signal: no further sends succeed, consumers
    /// drain what is buffered and then see the terminal condition.
    pub fn close(&mut self)
        requires
            old(self).wf(),
        ensures
            final(self).wf(),
            final(self).capacity_view() == old(self).capacity_view(),
            final(self).items_view() == old(self).items_view(),
            final(self).is_closed(),
    {
        self.closed = true;
    }

    /// How many items are queued.
    pub fn len(&self) -> (r: usize)
        ensures
            r as int == self.items_view().len(),
    {
        self.items.len()
    }
}

// ---------------------------------------------------------------------------
// Ingestion
// ---------------------------------------------------------------------------
/// Counters the ingestion path maintains; an observability collaborator
/// reads them.
pub struct IngestStats {
    pub ticks_received: u64,
    pub parse_errors: u64,
    pub dropped: u64,
}

impl IngestStats {
    pub fn new() -> (r: Self)
        ensures
            r.ticks_received == 0,
            r.parse_errors == 0,
            r.dropped == 0,
    {
        IngestStats { ticks_received: 0, parse_errors: 0, dropped: 0 }
    }
}

/// What became of one inbound packet.
#[derive(Clone, Copy, Debug, PartialEq, Eq, Structural)]
pub enum IngestOutcome {
    /// Parsed, enriched and queued.
    Forwarded,
    /// Not a tick record: dropped and counted, the loop goes on.
    Malformed,
    /// The channel was full: the tick is dropped and counted, never
    /// queued in place of an older one.
    Dropped,
    /// The channel was closed: the tick is dropped and counted.
    ChannelClosed,
}

/// Ingests one raw packet: parse, stamp with the receive time, enqueue
/// without blocking. Exactly one enriched tick is created per
/// well-formed packet; a malformed packet or a full channel only bumps
/// the matching counter. Never panics, never blocks, never terminates
/// the caller's loop.
pub fn ingest_packet(
    stats: &mut IngestStats,
    chan: &mut BoundedChannel,
    bytes: &Vec<u8>,
    receive_time_nanos: u128,
) -> (r: IngestOutcome)
    requires
        old(chan).wf(),
    ensures
        final(chan).wf(),
        final(chan).capacity_view() == old(chan).capacity_view(),
        final(chan).is_closed() == old(chan).is_closed(),
        !wire_ok(bytes@) ==> r is Malformed && final(stats).parse_errors == bump(
            old(stats).parse_errors,
        ) && final(stats).ticks_received == old(stats).ticks_received && final(stats).dropped
            == old(stats).dropped && final(chan).items_view() == old(chan).items_view(),
        wire_ok(bytes@) ==> final(stats).ticks_received == bump(old(stats).ticks_received)
            && final(stats).parse_errors == old(stats).parse_errors,
        wire_ok(bytes@) && !old(chan).is_closed() && old(chan).items_view().len() < old(chan).capacity_view() ==> r is Forwarded && final(stats).dropped == old(stats).dropped
            && final(chan).items_view().len() == old(chan).items_view().len() + 1 && final(chan).items_view().take(old(chan).items_view().len() as int) == old(chan).items_view()
            && final(chan).items_view().last().tick@ == wire_tick(bytes@) && final(chan).items_view().last().receive_time_nanos == receive_time_nanos && final(chan).items_view().last().latency_micros as int == latency_micros_of(
            wire_tick(bytes@).timestamp_nanos,
            receive_time_nanos,
        ),
        wire_ok(bytes@) && !old(chan).is_closed() && old(chan).items_view().len() == old(chan).capacity_view() ==> r is Dropped && final(stats).dropped == bump(old(stats).dropped)
            && final(chan).items_view() == old(chan).items_view(),
        wire_ok(bytes@) && old(chan).is_closed() ==> r is ChannelClosed && final(stats).dropped
            == bump(old(stats).dropped) && final(chan).items_view() == old(chan).items_view(),
{
    let tick = match decode_record_bytes(bytes) {
        Ok(t) => t,
        Err(_) => {
            stats.parse_errors = if stats.parse_errors < u64::MAX {
                stats.parse_errors + 1
            } else {
                stats.parse_errors
            };
            return IngestOutcome::Malformed;
        },
    };
    stats.ticks_received = if stats.ticks_received < u64::MAX {
        stats.ticks_received + 1
    } else {
        stats.ticks_received
    };
    let enriched = enrich(tick, receive_time_nanos);
    let ghost prev_items = chan.items_view();
    match chan.try_send(enriched) {
        SendOutcome::Sent => {
            proof {
                assert(final(chan).items_view().take(prev_items.len() as int) =~= prev_items);
            }
            IngestOutcome::Forwarded
        },
        SendOutcome::Full(_) => {
            stats.dropped = if stats.dropped < u64::MAX {
                stats.dropped + 1
            } else {
                stats.dropped
            };
            IngestOutcome::Dropped
        },
        SendOutcome::Closed(_) => {
            stats.dropped = if stats.dropped < u64::MAX {
                stats.dropped + 1
            } else {
                stats.dropped
            };
            IngestOutcome::ChannelClosed
        },
    }
}

// ---------------------------------------------------------------------------
// The cross-thread transport at the process edge
// ---------------------------------------------------------------------------
/// Declares crossbeam's channel sender so enriched ticks can flow
/// through it; the type stays opaque here.
#[verifier::external_type_specification]
#[verifier::external_body]
#[verifier::reject_recursive_types(T)]
pub struct ExSender<T>(crossbeam::channel::Sender<T>);

/// Relies on crossbeam's `Sender::try_send`: it never blocks, and on
/// failure the error hands the message back — `Full` when the channel is
/// at capacity, `Disconnected` when every receiver is gone. Which case
/// occurs depends on the other threads, so nothing more is promised.
#[verifier::external_body]
fn try_send_enriched(tx: &crossbeam::channel::Sender<EnrichedTick>, t: EnrichedTick) -> (r:
    SendOutcome)
    ensures
        (match r {
            SendOutcome::Sent => true,
            SendOutcome::Full(x) => x == t,
            SendOutcome::Closed(x) => x == t,
        }),
{
    match tx.try_send(t) {
        Ok(()) => SendOutcome::Sent,
        Err(crossbeam::channel::TrySendError::Full(x)) => SendOutcome::Full(x),
        Err(crossbeam::channel::TrySendError::Disconnected(x)) => SendOutcome::Closed(x),
    }
}

/// Ingests one raw packet onto a crossbeam-backed transport: the same
/// parse-enrich-forward decision as `ingest_packet`, with the enqueue
/// made by the outside channel. Whatever the other threads did to the
/// channel, the counters account for the packet exactly once.
pub fn forward_packet(
    stats: &mut IngestStats,
    tx: &crossbeam::channel::Sender<EnrichedTick>,
    bytes: &Vec<u8>,
    receive_time_nanos: u128,
) -> (r: IngestOutcome)
    ensures
        !wire_ok(bytes@) ==> r is Malformed && final(stats).parse_errors == bump(
            old(stats).parse_errors,
        ) && final(stats).ticks_received == old(stats).ticks_received && final(stats).dropped
            == old(stats).dropped,
        wire_ok(bytes@) ==> final(stats).ticks_received == bump(old(stats).ticks_received)
            && final(stats).parse_errors == old(stats).parse_errors && !(r is Malformed),
        wire_ok(bytes@) && r is Forwarded ==> final(stats).dropped == old(stats).dropped,
        wire_ok(bytes@) && !(r is Forwarded) ==> final(stats).dropped == bump(
            old(stats).dropped,
        ),
{
    let tick = match decode_record_bytes(bytes) {
        Ok(t) => t,
        Err(_) => {
            stats.parse_errors = if stats.parse_errors < u64::MAX {
                stats.parse_errors + 1
            } else {
                stats.parse_errors
            };
            return IngestOutcome::Malformed;
        },
    };
    stats.ticks_received = if stats.ticks_received < u64::MAX {
        stats.ticks_received + 1
    } else {
        stats.ticks_received
    };
    let enriched = enrich(tick, receive_time_nanos);
    match try_send_enriched(tx, enriched) {
        SendOutcome::Sent => IngestOutcome::Forwarded,
        SendOutcome::Full(_) => {
            stats.dropped = if stats.dropped < u64::MAX {
                stats.dropped + 1
            } else {
                stats.dropped
            };
            IngestOutcome::Dropped
        },
        SendOutcome::Closed(_) => {
            stats.dropped = if stats.dropped < u64::MAX {
                stats.dropped + 1
            } else {
                stats.dropped
            };
            IngestOutcome::ChannelClosed
        },
    }
}

} // verus!
