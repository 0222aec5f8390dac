//! Outcomes and counters of the pair-trading pipeline.

use vstd::prelude::*;

verus! {

/// Trading decision produced by the pipeline for each processed message.
#[derive(Debug, Clone, Copy, PartialEq, Eq, Structural)]
pub enum TradeDecision {
    /// Open a position: long if the z-score is below the negative
    /// threshold, short if it is above the positive one.
    Enter { long: bool },
    /// Close the current position.
    Exit,
    /// No action.
    Hold,
}

/// Per-stage cycle counts and aggregate counters.
#[derive(Debug, Clone, Default)]
pub struct PipelineStats {
    /// Cycles spent in the bitmap filter / symbol match stage.
    pub filter_cycles: u64,
    /// Cycles spent updating order books.
    pub book_cycles: u64,
    /// Cycles spent computing mid-price and updating spread.
    pub spread_cycles: u64,
    /// Cycles spent in ADF / half-life retest.
    pub coint_cycles: u64,
    /// Cycles spent computing z-score + generating signal.
    pub signal_cycles: u64,
    /// Total cycles for the full pipeline (per-message).
    pub total_cycles: u64,
    /// Number of messages fed into the pipeline.
    pub msg_count: u64,
    /// Number of messages relevant to the tracked pair.
    pub relevant_msg_count: u64,
    /// Number of price updates that triggered a spread update.
    pub spread_updates: u64,
    /// Number of cointegration retests performed.
    pub retest_count: u64,
    /// Number of signals generated (non-Hold decisions).
    pub signal_count: u64,
    /// Number of entry signals.
    pub entry_count: u64,
    /// Number of exit signals.
    pub exit_count: u64,
}

/// Current position state.
#[derive(Debug, Clone, Copy, PartialEq, Eq, Structural)]
pub enum Position {
    Flat,
    Long,
    Short,
}

/// Which tracked leg a stock symbol belongs to: `Some(true)` for leg A,
/// `Some(false)` for leg B, `None` for neither.
pub fn match_symbol(stock: &[u8; 8], symbol_a: &[u8; 8], symbol_b: &[u8; 8]) -> (r: Option<bool>)
    ensures
        r == if stock@ == symbol_a@ {
            Some(true)
        } else if stock@ == symbol_b@ {
            Some(false)
        } else {
            None::<bool>
        },
{
    if same_symbol(stock, symbol_a) {
        Some(true)
    } else if same_symbol(stock, symbol_b) {
        Some(false)
    } else {
        None
    }
}

fn same_symbol(a: &[u8; 8], b: &[u8; 8]) -> (r: bool)
    ensures
        r == (a@ == b@),
{
    let mut i: usize = 0;
    while i < 8
        invariant
            i <= 8,
            forall|j: int| 0 <= j < i ==> a@[j] == b@[j],
        decreases 8 - i,
    {
        if a[i] != b[i] {
            return false;
        }
        i = i + 1;
    }
    assert(a@ =~= b@);
    true
}

/// Counts a trade decision: entries and exits by kind, and every decision
/// other than `Hold` as a signal.
pub fn count_decision(stats: &mut PipelineStats, decision: TradeDecision)
    requires
        old(stats).entry_count < u64::MAX,
        old(stats).exit_count < u64::MAX,
        old(stats).signal_count < u64::MAX,
    ensures
        final(stats).entry_count == old(stats).entry_count + if decision is Enter {
            1int
        } else {
            0int
        },
        final(stats).exit_count == old(stats).exit_count + if decision is Exit {
            1int
        } else {
            0int
        },
        final(stats).signal_count == old(stats).signal_count + if decision is Hold {
            0int
        } else {
            1int
        },
        final(stats).msg_count == old(stats).msg_count,
        final(stats).relevant_msg_count == old(stats).relevant_msg_count,
        final(stats).spread_updates == old(stats).spread_updates,
        final(stats).retest_count == old(stats).retest_count,
        final(stats).filter_cycles == old(stats).filter_cycles,
        final(stats).book_cycles == old(stats).book_cycles,
        final(stats).spread_cycles == old(stats).spread_cycles,
        final(stats).coint_cycles == old(stats).coint_cycles,
        final(stats).signal_cycles == old(stats).signal_cycles,
        final(stats).total_cycles == old(stats).total_cycles,
{
    match decision {
        TradeDecision::Enter { .. } => stats.entry_count = stats.entry_count + 1,
        TradeDecision::Exit => stats.exit_count = stats.exit_count + 1,
        TradeDecision::Hold => {},
    }
    if decision != TradeDecision::Hold {
        stats.signal_count = stats.signal_count + 1;
    }
}

/// The position and decision after one signal; see [`step_position`].
pub open spec fn next_position(
    position: Position,
    entry_hit: bool,
    negative: bool,
    long_exit_hit: bool,
    short_exit_hit: bool,
) -> (Position, TradeDecision) {
    match position {
        Position::Flat => if entry_hit {
            (
                if negative {
                    Position::Long
                } else {
                    Position::Short
                },
                TradeDecision::Enter { long: negative },
            )
        } else {
            (Position::Flat, TradeDecision::Hold)
        },
        Position::Long => if long_exit_hit {
            (Position::Flat, TradeDecision::Exit)
        } else {
            (Position::Long, TradeDecision::Hold)
        },
        Position::Short => if short_exit_hit {
            (Position::Flat, TradeDecision::Exit)
        } else {
            (Position::Short, TradeDecision::Hold)
        },
    }
}

/// A signal step keeps position and decision in agreement: an entry is
/// taken only from flat and only on an entry hit, and goes long exactly
/// when the z-score is negative (buying the spread when it is low); an exit
/// is taken only from an open position on that position's exit hit and
/// always ends flat; a hold leaves the position as it was; and a hit is
/// never ignored.
pub proof fn lemma_step_agrees(
    position: Position,
    entry_hit: bool,
    negative: bool,
    long_exit_hit: bool,
    short_exit_hit: bool,
)
    ensures
        ({
            let (next, d) = next_position(position, entry_hit, negative, long_exit_hit, short_exit_hit);
            &&& d matches TradeDecision::Enter { long } ==> position == Position::Flat && entry_hit && long
                == negative && next == (if long {
                Position::Long
            } else {
                Position::Short
            })
            &&& d is Exit ==> next == Position::Flat && ((position == Position::Long && long_exit_hit) || (
            position == Position::Short && short_exit_hit))
            &&& d is Hold ==> next == position
            &&& position == Position::Flat && entry_hit ==> d is Enter
            &&& position == Position::Long && long_exit_hit ==> d is Exit
            &&& position == Position::Short && short_exit_hit ==> d is Exit
        }),
{
}

/// The position and decision after one signal, given how the z-score
/// compared with the thresholds: `entry_hit` (its size reached the entry
/// threshold), `negative` (it is below zero), `long_exit_hit` (it is at or
/// above minus the exit threshold) and `short_exit_hit` (it is at or below
/// the exit threshold). Flat enters on an entry hit, long when negative;
/// a long or short position exits on its exit hit; otherwise it holds.
pub fn step_position(
    position: Position,
    entry_hit: bool,
    negative: bool,
    long_exit_hit: bool,
    short_exit_hit: bool,
) -> (r: (Position, TradeDecision))
    ensures
        r == next_position(position, entry_hit, negative, long_exit_hit, short_exit_hit),
{
    match position {
        Position::Flat => {
            if entry_hit {
                let next = if negative {
                    Position::Long
                } else {
                    Position::Short
                };
                (next, TradeDecision::Enter { long: negative })
            } else {
                (Position::Flat, TradeDecision::Hold)
            }
        },
        Position::Long => {
            if long_exit_hit {
                (Position::Flat, TradeDecision::Exit)
            } else {
                (Position::Long, TradeDecision::Hold)
            }
        },
        Position::Short => {
            if short_exit_hit {
                (Position::Flat, TradeDecision::Exit)
            } else {
                (Position::Short, TradeDecision::Hold)
            }
        },
    }
}

} // verus!
