//! Per-packet timestamps along the pipeline, in time-stamp-counter cycles.

use vstd::prelude::*;

verus! {

/// Counter readings for one packet's way through the pipeline.
#[derive(Debug, Clone)]
pub struct PacketTimestamps {
    /// When the packet was received (or injected).
    pub arrival: u64,
    /// When parsing started.
    pub parse_start: u64,
    /// When parsing finished.
    pub parse_end: u64,
    /// When the order book update finished.
    pub book_update_end: u64,
    /// When the strategy callback fired.
    pub strategy_callback: u64,
}

impl PacketTimestamps {
    /// The readings run forward through the stages.
    pub open spec fn ordered(&self) -> bool {
        &&& self.arrival <= self.parse_start
        &&& self.parse_start <= self.parse_end
        &&& self.parse_end <= self.book_update_end
        &&& self.book_update_end <= self.strategy_callback
    }

    /// All stages stamped with the counter reading `now`.
    pub fn new(now: u64) -> (r: Self)
        ensures
            r.arrival == now,
            r.parse_start == now,
            r.parse_end == now,
            r.book_update_end == now,
            r.strategy_callback == now,
    {
        PacketTimestamps {
            arrival: now,
            parse_start: now,
            parse_end: now,
            book_update_end: now,
            strategy_callback: now,
        }
    }

    /// Cycles from arrival to the strategy callback.
    pub fn total_latency_cycles(&self) -> (r: u64)
        requires
            self.arrival <= self.strategy_callback,
        ensures
            r == self.strategy_callback - self.arrival,
    {
        self.strategy_callback - self.arrival
    }

    /// Cycles spent parsing.
    pub fn parse_latency_cycles(&self) -> (r: u64)
        requires
            self.parse_start <= self.parse_end,
        ensures
            r == self.parse_end - self.parse_start,
    {
        self.parse_end - self.parse_start
    }

    /// Cycles from the end of parsing to the end of the book update.
    pub fn book_latency_cycles(&self) -> (r: u64)
        requires
            self.parse_end <= self.book_update_end,
        ensures
            r == self.book_update_end - self.parse_end,
    {
        self.book_update_end - self.parse_end
    }

    /// Cycles from the end of the book update to the strategy callback.
    pub fn strategy_latency_cycles(&self) -> (r: u64)
        requires
            self.book_update_end <= self.strategy_callback,
        ensures
            r == self.strategy_callback - self.book_update_end,
    {
        self.strategy_callback - self.book_update_end
    }
}

/// Stage latencies of one packet, in nanoseconds.
#[derive(Debug, Clone)]
pub struct PacketLatencyNs {
    pub total_ns: u64,
    pub parse_ns: u64,
    pub book_ns: u64,
    pub strategy_ns: u64,
}

/// The stage latencies of ordered readings add up to the total.
pub proof fn lemma_stage_latencies_sum(ts: PacketTimestamps)
    requires
        ts.ordered(),
    ensures
        (ts.strategy_callback - ts.arrival) == (ts.parse_start - ts.arrival) + (ts.parse_end
            - ts.parse_start) + (ts.book_update_end - ts.parse_end) + (ts.strategy_callback
            - ts.book_update_end),
{
}

} // verus!
