//! The inter-component envelope: a tagged union over the pipeline's
//! values, framed on a stream transport as a four-byte big-endian length
//! prefix followed by the serialized payload. The framing — prefix
//! emission, prefix parsing, and their round trip — is defined and proved
//! here; turning a `Message` into payload bytes and back is the transport
//! edge's concern.

use vstd::prelude::*;

use crate::EnrichedTick;
use crate::HftError;
use crate::MarketTick;
use crate::Order;
use crate::OrderBook;
use crate::TradingSignal;

verus! {

/// Message types passed between components.
#[derive(Clone, Debug)]
pub enum Message {
    /// A raw tick from the source into ingestion.
    Tick(MarketTick),
    /// An enriched tick from ingestion to the strategies.
    EnrichedTick(EnrichedTick),
    /// A trading signal from a strategy to the order gateway.
    Signal(TradingSignal),
    /// An order from the gateway.
    Order(Order),
    /// A whole-book update.
    OrderBookUpdate(OrderBook),
    /// Connection monitoring.
    Heartbeat { sender: Vec<u8>, timestamp: u128 },
    /// Cooperative shutdown.
    Shutdown,
}

/// The four big-endian bytes of a 32-bit length.
pub open spec fn be32(n: u32) -> Seq<u8> {
    seq![
        (n / 0x1000000) as u8,
        ((n % 0x1000000) / 0x10000) as u8,
        ((n % 0x10000) / 0x100) as u8,
        (n % 0x100) as u8,
    ]
}

/// The length a big-endian prefix encodes.
pub open spec fn be32_val(b0: u8, b1: u8, b2: u8, b3: u8) -> int {
    b0 * 0x1000000 + b1 * 0x10000 + b2 * 0x100 + b3
}

proof fn lemma_be32_val(n: u32)
    ensures
        be32_val(be32(n)[0], be32(n)[1], be32(n)[2], be32(n)[3]) == n,
        be32(n).len() == 4,
{
    let x = n as int;
    vstd::arithmetic::div_mod::lemma_fundamental_div_mod(x, 0x1000000);
    vstd::arithmetic::div_mod::lemma_fundamental_div_mod(x % 0x1000000, 0x10000);
    vstd::arithmetic::div_mod::lemma_fundamental_div_mod(x % 0x10000, 0x100);
    assert((x % 0x1000000) % 0x10000 == x % 0x10000) by {
        vstd::arithmetic::div_mod::lemma_mod_mod(x, 0x10000, 0x100);
        vstd::arithmetic::div_mod::lemma_mod_breakdown(x, 0x10000, 0x100);
    }
    assert((x % 0x10000) % 0x100 == x % 0x100) by {
        vstd::arithmetic::div_mod::lemma_mod_mod(x, 0x100, 0x100);
    }
}

/// A length-prefixed frame. The original framing allows the length field
/// and the payload to be set independently; `new` is the constructor that
/// keeps them consistent.
pub struct MessageFrame {
    pub length: u32,
    pub payload: Vec<u8>,
}

impl MessageFrame {
    /// Frames a serialized payload; a payload too long for a 32-bit
    /// prefix is rejected, and exactly those are.
    pub fn new(payload: Vec<u8>) -> (r: Result<Self, HftError>)
        ensures
            (match r {
                Ok(f) => payload@.len() <= u32::MAX && f.length as int == payload@.len()
                    && f.payload@ == payload@,
                Err(e) => payload@.len() > u32::MAX && e == HftError::SerializationError,
            }),
    {
        if payload.len() > u32::MAX as usize {
            return Err(HftError::SerializationError);
        }
        let length = payload.len() as u32;
        Ok(MessageFrame { length, payload })
    }

    pub fn from_length_and_payload(length: u32, payload: Vec<u8>) -> (r: Self)
        ensures
            r.length == length,
            r.payload@ == payload@,
    {
        MessageFrame { length, payload }
    }

    /// The wire form: four big-endian length bytes, then the payload.
    pub fn to_bytes(&self) -> (out: Vec<u8>)
        ensures
            out@ == be32(self.length) + self.payload@,
    {
        let n = self.length;
        let mut out: Vec<u8> = Vec::new();
        out.push((n / 0x1000000) as u8);
        out.push(((n % 0x1000000) / 0x10000) as u8);
        out.push(((n % 0x10000) / 0x100) as u8);
        out.push((n % 0x100) as u8);
        let mut i: usize = 0;
        while i < self.payload.len()
            invariant
                i <= self.payload@.len(),
                out@ == be32(self.length) + self.payload@.take(i as int),
                n == self.length,
            decreases self.payload@.len() - i,
        {
            out.push(self.payload[i]);
            proof {
                assert(self.payload@.take(i + 1) =~= self.payload@.take(i as int).push(
                    self.payload@[i as int],
                ));
                assert(out@ =~= be32(self.length) + self.payload@.take(i + 1));
            }
            i += 1;
        }
        proof {
            assert(self.payload@.take(self.payload@.len() as int) =~= self.payload@);
        }
        out
    }
}

/// Where a frame starting at the head of `data` ends, if the prefix and a
/// full payload are present.
pub open spec fn sp_frame(data: Seq<u8>) -> Option<(int, int)> {
    if data.len() < 4 {
        None
    } else {
        let n = be32_val(data[0], data[1], data[2], data[3]);
        if 4 + n <= data.len() {
            Some((n, 4 + n))
        } else {
            None
        }
    }
}

/// Splits one frame off the head of a byte stream: the payload the prefix
/// announces, and how many bytes the frame took. `None` while the stream
/// is still short of a whole frame.
pub fn parse_frame(data: &Vec<u8>) -> (r: Option<(MessageFrame, usize)>)
    ensures
        (match r {
            Some((f, consumed)) => sp_frame(data@) == Some((f.length as int, consumed as int))
                && f.payload@ == data@.subrange(4, 4 + f.length as int),
            None => sp_frame(data@) is None,
        }),
{
    if data.len() < 4 {
        return None;
    }
    let b0 = data[0];
    let b1 = data[1];
    let b2 = data[2];
    let b3 = data[3];
    let n: u32 = (b0 as u32) * 0x1000000 + (b1 as u32) * 0x10000 + (b2 as u32) * 0x100 + (
    b3 as u32);
    if data.len() - 4 < n as usize {
        return None;
    }
    let mut payload: Vec<u8> = Vec::new();
    let mut i: usize = 0;
    while i < n as usize
        invariant
            i <= n,
            4 + n <= data@.len(),
            data@.len() <= usize::MAX,
            payload@ == data@.subrange(4, 4 + i as int),
        decreases n as int - i,
    {
        payload.push(data[4 + i]);
        proof {
            assert(data@.subrange(4, 4 + (i + 1)) =~= data@.subrange(4, 4 + i as int).push(
                data@[4 + i as int],
            ));
        }
        i += 1;
    }
    Some((MessageFrame { length: n, payload }, 4 + n as usize))
}

/// Round trip of the framing: emitting a consistent frame and parsing it
/// back yields the same length and payload, consuming exactly the frame.
pub proof fn lemma_frame_round_trip(length: u32, payload: Seq<u8>, rest: Seq<u8>)
    requires
        payload.len() == length,
    ensures
        sp_frame(be32(length) + payload + rest) == Some(
            (length as int, 4 + payload.len() as int),
        ),
        (be32(length) + payload + rest).subrange(4, 4 + payload.len() as int) == payload,
{
    let data = be32(length) + payload + rest;
    lemma_be32_val(length);
    assert(data[0] == be32(length)[0]);
    assert(data[1] == be32(length)[1]);
    assert(data[2] == be32(length)[2]);
    assert(data[3] == be32(length)[3]);
    assert(data.subrange(4, 4 + payload.len() as int) =~= payload);
}

} // verus!
