//! Simulated packet reception: a batch of ITCH frames is decoded and fed to
//! an order book, each message stamped at every stage.

use vstd::prelude::*;
use crate::net::packet_timer::PacketTimestamps;
use crate::orderbook::arena::SENTINEL;
use crate::orderbook::book::{OrderBook, RestingOrder};
use crate::orderbook::feed::{apply_message, feeds_all, lemma_feeds_all_step};
use crate::parser::naive::decode_stream;
use crate::parser::optimized;

verus! {

/// Every reading of `ts` is a value that `clock` can return.
pub open spec fn stamped_by<F: Fn() -> u64>(clock: F, ts: PacketTimestamps) -> bool {
    &&& clock.ensures((), ts.arrival)
    &&& clock.ensures((), ts.parse_start)
    &&& clock.ensures((), ts.parse_end)
    &&& clock.ensures((), ts.book_update_end)
    &&& clock.ensures((), ts.strategy_callback)
}

/// An order book fed from injected packets, with the timestamps of the
/// last batch.
pub struct PacketReceiver {
    book: OrderBook,
    timestamps: Vec<PacketTimestamps>,
}

impl PacketReceiver {
    /// The book the packets are fed to.
    pub closed spec fn book_state(&self) -> OrderBook {
        self.book
    }

    /// Timestamps of the last batch, one per decoded message.
    pub closed spec fn stamps(&self) -> Seq<PacketTimestamps> {
        self.timestamps@
    }

    /// The book is well formed.
    pub open spec fn wf(&self) -> bool {
        self.book_state().wf()
    }

    /// A receiver over an empty book of `book_capacity` pre-allocated slots.
    pub fn new(book_capacity: usize) -> (r: Self)
        requires
            book_capacity <= SENTINEL,
        ensures
            r.wf(),
            r.book_state().bids() == Seq::<RestingOrder>::empty(),
            r.book_state().asks() == Seq::<RestingOrder>::empty(),
            r.stamps() == Seq::<PacketTimestamps>::empty(),
    {
        PacketReceiver { book: OrderBook::new(book_capacity), timestamps: Vec::new() }
    }

    /// Decodes the frames of `stream` and feeds each message to the book
    /// with [`apply_message`], reading `clock` at arrival, around the
    /// (already done) parse, after the book update and at the strategy
    /// callback. Returns one set of timestamps per message, each field a
    /// reading of `clock`.
    pub fn process_stream<F: Fn() -> u64>(&mut self, stream: &[u8], clock: F) -> (r: &Vec<PacketTimestamps>)
        requires
            old(self).wf(),
            clock.requires(()),
        ensures
            final(self).wf(),
            feeds_all(old(self).book_state(), final(self).book_state(), decode_stream(stream@)),
            r@ == final(self).stamps(),
            r@.len() == decode_stream(stream@).len(),
            forall|k: int| 0 <= k < r@.len() ==> stamped_by(clock, #[trigger] r@[k]),
    {
        let msgs = optimized::parse_all(stream);
        let ghost book0 = self.book;
        self.timestamps.clear();
        let mut k: usize = 0;
        assert(msgs@.take(0) =~= Seq::empty());
        while k < msgs.len()
            invariant
                k <= msgs@.len(),
                msgs@ == decode_stream(stream@),
                self.book.wf(),
                clock.requires(()),
                feeds_all(book0, self.book, msgs@.take(k as int)),
                self.timestamps@.len() == k,
                forall|j: int| 0 <= j < k ==> stamped_by(clock, #[trigger] self.timestamps@[j]),
            decreases msgs@.len() - k,
        {
            let mut ts = PacketTimestamps::new(clock());
            ts.parse_start = clock();
            ts.parse_end = clock();
            let ghost mid = self.book;
            apply_message(&mut self.book, &msgs[k]);
            proof {
                lemma_feeds_all_step(book0, mid, self.book, msgs@, k as int);
            }
            ts.book_update_end = clock();
            ts.strategy_callback = clock();
            self.timestamps.push(ts);
            k = k + 1;
        }
        assert(msgs@.take(msgs@.len() as int) =~= msgs@);
        &self.timestamps
    }

    /// The book the packets are fed to.
    pub fn book(&self) -> (r: &OrderBook)
        ensures
            *r == self.book_state(),
    {
        &self.book
    }
}

} // verus!
