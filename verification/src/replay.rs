//! Record and replay of tick streams for deterministic backtesting.
//!
//! The recorder appends one line per tick to an in-memory log; an outer
//! file writer owns the handle and the flushing. The replayer walks such a
//! log line by line, and `ReplayStats` folds a whole log in one pass. A
//! malformed line is fatal to a replay session — replay sources are assumed
//! well-formed, unlike live input.

use vstd::prelude::*;

use crate::HftError;
use crate::MarketTick;
use crate::copy_bytes;
use crate::bytes_eq;
use crate::TickModel;
use crate::codec::append_line_bytes;
use crate::codec::encode_line;
use crate::codec::log_of;
use crate::codec::parse_line;
use crate::codec::sp_line;
use crate::codec::sp_log;

verus! {

/// A log line takes at least two bytes, so tick counts stay far below the
/// byte counts that bound them.
proof fn lemma_log_len(ts: Seq<TickModel>)
    ensures
        log_of(ts).len() >= 2 * ts.len(),
    decreases ts.len(),
{
    if ts.len() > 0 {
        lemma_log_len(ts.drop_first());
        assert(encode_line(ts[0]).len() >= 2);
    }
}

proof fn lemma_log_of_push(ts: Seq<TickModel>, t: TickModel)
    ensures
        log_of(ts.push(t)) == log_of(ts) + encode_line(t),
    decreases ts.len(),
{
    if ts.len() == 0 {
        assert(ts.push(t).drop_first() =~= Seq::<TickModel>::empty());
        assert(ts.push(t)[0] == t);
        assert(log_of(Seq::<TickModel>::empty()) =~= Seq::<u8>::empty());
        assert(log_of(ts.push(t)) == encode_line(t) + log_of(Seq::<TickModel>::empty()));
        assert(encode_line(t) + Seq::<u8>::empty() =~= encode_line(t));
        assert(log_of(ts) + encode_line(t) =~= encode_line(t));
    } else {
        assert(ts.push(t).drop_first() =~= ts.drop_first().push(t));
        lemma_log_of_push(ts.drop_first(), t);
        assert(encode_line(ts[0]) + (log_of(ts.drop_first()) + encode_line(t)) =~= (encode_line(
            ts[0],
        ) + log_of(ts.drop_first())) + encode_line(t));
    }
}

/// Records ticks into an append-only log, one serialized tick per line.
/// Durability is the caller's: the accumulated bytes are handed out
/// explicitly and nothing is synced per call.
pub struct MarketRecorder {
    log: Vec<u8>,
    tick_count: u64,
    ticks: Ghost<Seq<TickModel>>,
}

impl MarketRecorder {
    /// The log bytes are exactly the log of the recorded ticks, and the
    /// running count matches.
    pub closed spec fn wf(&self) -> bool {
        &&& self.log@ == log_of(self.ticks@)
        &&& self.tick_count as nat == self.ticks@.len()
    }

    /// The ticks recorded so far, in order.
    pub closed spec fn recorded(&self) -> Seq<TickModel> {
        self.ticks@
    }

    pub fn new() -> (r: Self)
        ensures
            r.wf(),
            r.recorded() == Seq::<TickModel>::empty(),
    {
        MarketRecorder { log: Vec::new(), tick_count: 0, ticks: Ghost(Seq::empty()) }
    }

    /// Appends one tick to the log and bumps the running count.
    pub fn record_tick(&mut self, tick: &MarketTick)
        requires
            old(self).wf(),
        ensures
            final(self).wf(),
            final(self).recorded() == old(self).recorded().push(tick@),
    {
        proof {
            lemma_log_len(self.ticks@);
        }
        // Reading the length registers that it fits a usize: the count,
        // at most half of it, then has headroom for one more.
        let _loglen = self.log.len();
        append_line_bytes(&mut self.log, tick);
        self.tick_count = self.tick_count + 1;
        proof {
            lemma_log_of_push(self.ticks@, tick@);
        }
        self.ticks = Ghost(self.ticks@.push(tick@));
    }

    /// How many ticks have been recorded.
    pub fn tick_count(&self) -> (r: u64)
        requires
            self.wf(),
        ensures
            r as nat == self.recorded().len(),
    {
        self.tick_count
    }

    /// The accumulated log bytes, for the owner of the output handle to
    /// write and flush.
    pub fn log_bytes(&self) -> (r: &Vec<u8>)
        requires
            self.wf(),
        ensures
            r@ == log_of(self.recorded()),
    {
        &self.log
    }
}

/// Replays a recorded log, one tick per call.
pub struct MarketReplayer {
    data: Vec<u8>,
    pos: usize,
    tick_count: u64,
}

impl MarketReplayer {
    pub closed spec fn wf(&self) -> bool {
        &&& self.pos <= self.data@.len()
        &&& 2 * self.tick_count <= self.pos
    }

    /// The whole log this replayer walks.
    pub closed spec fn data_view(&self) -> Seq<u8> {
        self.data@
    }

    /// Read position in the log.
    pub closed spec fn pos_view(&self) -> int {
        self.pos as int
    }

    /// How many ticks have been replayed so far.
    pub closed spec fn count_view(&self) -> int {
        self.tick_count as int
    }

    pub fn new(data: Vec<u8>) -> (r: Self)
        ensures
            r.wf(),
            r.data_view() == data@,
            r.pos_view() == 0,
            r.count_view() == 0,
    {
        MarketReplayer { data, pos: 0, tick_count: 0 }
    }

    /// Reads and parses the next line. `Ok(None)` signals end of stream; a
    /// malformed line is an error that ends the session, with nothing
    /// consumed.
    pub fn next_tick(&mut self) -> (r: Result<Option<MarketTick>, HftError>)
        requires
            old(self).wf(),
        ensures
            final(self).wf(),
            final(self).data_view() == old(self).data_view(),
            old(self).pos_view() == old(self).data_view().len() ==> r matches Ok(None),
            old(self).pos_view() < old(self).data_view().len() && sp_line(
                old(self).data_view(),
                old(self).pos_view(),
            ) is Some ==> r is Ok,
            (match r {
                Ok(Some(t)) => sp_line(old(self).data_view(), old(self).pos_view())
                    == Some::<(TickModel, int)>((t@, final(self).pos_view()))
                    && final(self).count_view() == old(self).count_view() + 1,
                Ok(None) => old(self).pos_view() == old(self).data_view().len() && *final(self)
                    == *old(self),
                Err(e) => e == HftError::SerializationError && sp_line(
                    old(self).data_view(),
                    old(self).pos_view(),
                ) is None && *final(self) == *old(self),
            }),
    {
        if self.pos == self.data.len() {
            return Ok(None);
        }
        match parse_line(&self.data, self.pos) {
            Some((t, end)) => {
                self.pos = end;
                self.tick_count = self.tick_count + 1;
                Ok(Some(t))
            },
            None => Err(HftError::SerializationError),
        }
    }

    /// How many ticks have been replayed.
    pub fn tick_count(&self) -> (r: u64)
        ensures
            r as int == self.count_view(),
    {
        self.tick_count
    }
}

/// Whether a whole log parses.
pub open spec fn log_ok(data: Seq<u8>) -> bool {
    sp_log(data, 0) is Some
}

/// The ticks a well-formed log holds, in order.
pub open spec fn log_ticks(data: Seq<u8>) -> Seq<TickModel> {
    match sp_log(data, 0) {
        Some(ts) => ts,
        None => arbitrary(),
    }
}

/// The views of a list of symbol buffers.
pub open spec fn syms_view(symbols: Seq<Vec<u8>>) -> Seq<Seq<u8>> {
    symbols.map_values(|v: Vec<u8>| v@)
}

/// The distinct symbols occurring in a tick sequence.
pub open spec fn symbols_of(ts: Seq<TickModel>) -> Set<Seq<u8>> {
    Set::new(|s: Seq<u8>| exists|i: int| 0 <= i < ts.len() && ts[i].symbol == s)
}

/// First-to-last timestamp difference in whole milliseconds, clamped to
/// zero when the log runs backwards (clock skew surfaces as a zero
/// duration, not a wrap) and saturated at the type bound.
pub open spec fn duration_ms_of(ts: Seq<TickModel>) -> u64 {
    if ts.len() == 0 {
        0
    } else {
        let first = ts[0].timestamp_nanos;
        let last = ts[ts.len() - 1].timestamp_nanos;
        if last < first {
            0
        } else if (last - first) / 1_000_000 > u64::MAX {
            u64::MAX
        } else {
            ((last - first) / 1_000_000) as u64
        }
    }
}

/// What a correct summary of `ts` looks like.
pub open spec fn stats_match(stats: ReplayStats, ts: Seq<TickModel>) -> bool {
    &&& stats.total_ticks as nat == ts.len()
    &&& stats.start_timestamp == (if ts.len() == 0 {
        0u128
    } else {
        ts[0].timestamp_nanos
    })
    &&& stats.end_timestamp == (if ts.len() == 0 {
        0u128
    } else {
        ts[ts.len() - 1].timestamp_nanos
    })
    &&& stats.duration_ms == duration_ms_of(ts)
    &&& syms_view(stats.symbols@).to_set() == symbols_of(ts)
    &&& (forall|i: int, j: int|
        0 <= i < j < stats.symbols@.len() ==> stats.symbols@[i]@ != stats.symbols@[j]@)
}

/// Summary of one whole replay log.
#[derive(Clone, Debug, PartialEq, Eq)]
pub struct ReplayStats {
    pub total_ticks: u64,
    pub start_timestamp: u128,
    pub end_timestamp: u128,
    pub duration_ms: u64,
    /// The distinct symbols encountered, in order of first appearance.
    pub symbols: Vec<Vec<u8>>,
}

fn contains_symbol(symbols: &Vec<Vec<u8>>, sym: &Vec<u8>) -> (r: bool)
    ensures
        r == (exists|i: int| 0 <= i < symbols@.len() && symbols@[i]@ == sym@),
{
    let mut i: usize = 0;
    while i < symbols.len()
        invariant
            i <= symbols@.len(),
            forall|k: int| 0 <= k < i ==> symbols@[k]@ != sym@,
        decreases symbols@.len() - i,
    {
        if bytes_eq(&symbols[i], sym) {
            return true;
        }
        i += 1;
    }
    false
}


/// Replays a whole log in one call: exactly the ticks the log holds, in
/// order. Together with the round trip of the codec, a log recorded from
/// `N` ticks replays as the same `N` ticks, field for field. The first
/// malformed line fails the whole pass.
pub fn replay_all(data: &Vec<u8>) -> (r: Result<Vec<MarketTick>, HftError>)
    ensures
        r is Ok <==> log_ok(data@),
        (match r {
            Ok(v) => v@.map_values(|t: MarketTick| t@) == log_ticks(data@),
            Err(e) => e == HftError::SerializationError,
        }),
{
    let mut pos: usize = 0;
    let mut out: Vec<MarketTick> = Vec::new();
    let ghost mut done: Seq<TickModel> = Seq::empty();
    proof {
        if sp_log(data@, 0) is Some {
            assert(Seq::<TickModel>::empty() + sp_log(data@, 0)->Some_0 =~= sp_log(
                data@,
                0,
            )->Some_0);
        }
        assert(out@.map_values(|t: MarketTick| t@) =~= done);
    }
    loop
        invariant
            pos <= data@.len(),
            log_cont(data@, done, pos as int),
            out@.map_values(|t: MarketTick| t@) == done,
        decreases data@.len() - pos,
    {
        if pos == data.len() {
            proof {
                assert(sp_log(data@, pos as int) == Some(Seq::<TickModel>::empty()));
                assert(done + Seq::<TickModel>::empty() =~= done);
            }
            return Ok(out);
        }
        match parse_line(data, pos) {
            Some((t, end)) => {
                proof {
                    lemma_log_cont_step(data@, done, pos as int, t@, end as int);
                    assert(out@.push(t).map_values(|x: MarketTick| x@) =~= done.push(t@));
                }
                out.push(t);
                pos = end;
                proof {
                    done = done.push(t@);
                }
            },
            None => {
                return Err(HftError::SerializationError);
            },
        }
    }
}

/// Relates the parse of a log suffix to the parse of the whole log.
pub open spec fn log_cont(data: Seq<u8>, done: Seq<TickModel>, pos: int) -> bool {
    match sp_log(data, pos) {
        Some(rest) => sp_log(data, 0) == Some(done + rest),
        None => sp_log(data, 0) is None,
    }
}

proof fn lemma_log_cont_step(data: Seq<u8>, done: Seq<TickModel>, pos: int, t: TickModel, end: int)
    requires
        0 <= pos < end <= data.len(),
        log_cont(data, done, pos),
        sp_line(data, pos) == Some::<(TickModel, int)>((t, end)),
    ensures
        log_cont(data, done.push(t), end),
{
    match sp_log(data, end) {
        Some(rest) => {
            assert(sp_log(data, pos) == Some(seq![t] + rest));
            assert(done + (seq![t] + rest) =~= done.push(t) + rest);
        },
        None => {
            assert(sp_log(data, pos) is None);
        },
    }
}

impl ReplayStats {
    /// One full pass over the raw bytes of a replay log: total tick count,
    /// first and last timestamps, their difference in milliseconds, and the
    /// distinct symbols in order of first appearance. Fails, touching
    /// nothing, on the first malformed line.
    pub fn from_file(data: &Vec<u8>) -> (r: Result<ReplayStats, HftError>)
        ensures
            r is Ok <==> log_ok(data@),
            (match r {
                Ok(stats) => stats_match(stats, log_ticks(data@)),
                Err(e) => e == HftError::SerializationError,
            }),
    {
        let mut pos: usize = 0;
        let mut total: u64 = 0;
        let mut start: u128 = 0;
        let mut endt: u128 = 0;
        let mut symbols: Vec<Vec<u8>> = Vec::new();
        let ghost mut done: Seq<TickModel> = Seq::empty();
        proof {
            if sp_log(data@, 0) is Some {
                assert(Seq::<TickModel>::empty() + sp_log(data@, 0)->Some_0 =~= sp_log(
                    data@,
                    0,
                )->Some_0);
            }
        }
        loop
            invariant
                pos <= data@.len(),
                log_cont(data@, done, pos as int),
                total as nat == done.len(),
                2 * total <= pos,
                done.len() > 0 ==> start == done[0].timestamp_nanos && endt == done[done.len()
                    - 1].timestamp_nanos,
                done.len() == 0 ==> start == 0 && endt == 0,
                syms_view(symbols@).to_set() == symbols_of(done),
                forall|i: int, j: int|
                    0 <= i < j < symbols@.len() ==> symbols@[i]@ != symbols@[j]@,
            decreases data@.len() - pos,
        {
            if pos == data.len() {
                proof {
                    assert(sp_log(data@, pos as int) == Some(Seq::<TickModel>::empty()));
                    assert(done + Seq::<TickModel>::empty() =~= done);
                }
                let duration_ms: u64 = if endt < start {
                    0
                } else {
                    let d: u128 = (endt - start) / 1_000_000;
                    if d > u64::MAX as u128 {
                        u64::MAX
                    } else {
                        d as u64
                    }
                };
                return Ok(
                    ReplayStats {
                        total_ticks: total,
                        start_timestamp: start,
                        end_timestamp: endt,
                        duration_ms,
                        symbols,
                    },
                );
            }
            match parse_line(data, pos) {
                Some((t, end)) => {
                    if total == 0 {
                        start = t.timestamp_nanos;
                    }
                    endt = t.timestamp_nanos;
                    if !contains_symbol(&symbols, &t.symbol) {
                        let ghost prev_syms = symbols@;
                        symbols.push(copy_bytes(&t.symbol));
                        proof {
                            assert(syms_view(symbols@) =~= syms_view(prev_syms).push(t.symbol@));
                            assert(syms_view(symbols@).to_set() =~= symbols_of(done.push(t@)))
                                by {
                                assert forall|s: Seq<u8>|
                                    syms_view(symbols@).to_set().contains(s) implies symbols_of(
                                    done.push(t@),
                                ).contains(s) by {
                                    let k = choose|k: int|
                                        0 <= k < syms_view(symbols@).len() && syms_view(
                                            symbols@,
                                        )[k] == s;
                                    if k < prev_syms.len() {
                                        assert(symbols_of(done).contains(s));
                                        let m = choose|m: int|
                                            0 <= m < done.len() && done[m].symbol == s;
                                        assert(done.push(t@)[m].symbol == s);
                                    } else {
                                        assert(done.push(t@)[done.len() as int].symbol == s);
                                    }
                                };
                                assert forall|s: Seq<u8>|
                                    symbols_of(done.push(t@)).contains(s) implies syms_view(
                                    symbols@,
                                ).to_set().contains(s) by {
                                    let m = choose|m: int|
                                        0 <= m < done.push(t@).len() && done.push(t@)[m].symbol
                                            == s;
                                    if m < done.len() {
                                        assert(symbols_of(done).contains(s));
                                        let k = choose|k: int|
                                            0 <= k < syms_view(prev_syms).len() && syms_view(
                                                prev_syms,
                                            )[k] == s;
                                        assert(syms_view(symbols@)[k] == s);
                                    } else {
                                        assert(syms_view(symbols@)[prev_syms.len() as int] == s);
                                    }
                                };
                            }
                        }
                    } else {
                        proof {
                            assert(syms_view(symbols@).to_set() =~= symbols_of(done.push(t@)))
                                by {
                                assert forall|s: Seq<u8>|
                                    symbols_of(done.push(t@)).contains(s) implies syms_view(
                                    symbols@,
                                ).to_set().contains(s) by {
                                    let m = choose|m: int|
                                        0 <= m < done.push(t@).len() && done.push(t@)[m].symbol
                                            == s;
                                    if m < done.len() {
                                        assert(symbols_of(done).contains(s));
                                    } else {
                                        assert(s == t.symbol@);
                                        let k = choose|k: int|
                                            0 <= k < symbols@.len() && symbols@[k]@ == t.symbol@;
                                        assert(syms_view(symbols@)[k] == s);
                                    }
                                };
                                assert forall|s: Seq<u8>|
                                    syms_view(symbols@).to_set().contains(s) implies symbols_of(
                                    done.push(t@),
                                ).contains(s) by {
                                    assert(symbols_of(done).contains(s));
                                    let m = choose|m: int|
                                        0 <= m < done.len() && done[m].symbol == s;
                                    assert(done.push(t@)[m].symbol == s);
                                };
                            }
                        }
                    }
                    proof {
                        lemma_log_cont_step(data@, done, pos as int, t@, end as int);
                    }
                    pos = end;
                    total = total + 1;
                    proof {
                        done = done.push(t@);
                    }
                },
                None => {
                    return Err(HftError::SerializationError);
                },
            }
        }
    }
}

} // verus!
