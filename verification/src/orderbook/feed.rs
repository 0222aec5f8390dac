//! Driving an order book from decoded ITCH messages.

use vstd::prelude::*;
use crate::orderbook::book::{OrderBook, lemma_cancel_removes, lemma_full_execution, lemma_partial_execution};
use crate::parser::naive::{Message, OrderDelete, OrderExecuted};

verus! {

/// `after` is `before` once a cancel or delete of `order_id` was applied.
pub open spec fn removes(before: OrderBook, after: OrderBook, order_id: u64) -> bool {
    before.cancels(after, order_id, before.cancel_hits(order_id))
}

/// `after` is `before` once `shares` of `order_id` were executed.
pub open spec fn executes_shares(before: OrderBook, after: OrderBook, order_id: u64, shares: u32) -> bool {
    before.executes(after, order_id, shares, before.cancel_hits(order_id))
}

/// `after` is `before` once the order was added; skipped when no slot is
/// left.
pub open spec fn adds_if_room(before: OrderBook, after: OrderBook, order_id: u64, buy: bool, price: u64, qty: u32) -> bool {
    if before.has_room() {
        before.adds(after, order_id, buy, price, qty)
    } else {
        after == before
    }
}

/// What [`apply_message`] does with `msg`: adds rest, cancels and deletes
/// remove the whole order, executions take shares off it, and every other
/// message leaves the book alone.
pub open spec fn feeds(before: OrderBook, after: OrderBook, msg: Message) -> bool {
    match msg {
        Message::AddOrder(a) => adds_if_room(before, after, a.order_ref, a.buy, a.price as u64, a.shares),
        Message::OrderCancel(c) => removes(before, after, c.order_ref),
        Message::OrderDelete(d) => removes(before, after, d.order_ref),
        Message::OrderExecuted(e) => executes_shares(before, after, e.order_ref, e.executed_shares),
        _ => after == before,
    }
}

/// `after` is `before` with `msgs` applied one after another by
/// [`apply_message`], every book on the way well formed.
pub open spec fn feeds_all(before: OrderBook, after: OrderBook, msgs: Seq<Message>) -> bool
    decreases msgs.len(),
{
    if msgs.len() == 0 {
        after == before
    } else {
        exists|mid: OrderBook|
            mid.wf() && feeds_all(before, mid, msgs.drop_last()) && #[trigger] feeds(
                mid,
                after,
                msgs.last(),
            )
    }
}

/// What [`apply_to_book`] does with `msg`: both kinds of add rest, both
/// kinds of execution and partial cancels take shares off the order,
/// deletes remove it, and every other message leaves the book alone.
pub open spec fn updates(before: OrderBook, after: OrderBook, msg: Message) -> bool {
    match msg {
        Message::AddOrder(a) => adds_if_room(before, after, a.order_ref, a.buy, a.price as u64, a.shares),
        Message::AddOrderMpid(f) => adds_if_room(before, after, f.order_ref, f.buy, f.price as u64, f.shares),
        Message::OrderExecuted(e) => executes_shares(before, after, e.order_ref, e.executed_shares),
        Message::OrderExecutedWithPrice(c) => executes_shares(before, after, c.order_ref, c.executed_shares),
        Message::OrderCancel(x) => executes_shares(before, after, x.order_ref, x.canceled_shares),
        Message::OrderDelete(d) => removes(before, after, d.order_ref),
        _ => after == before,
    }
}

fn add_if_room(book: &mut OrderBook, order_id: u64, buy: bool, price: u64, qty: u32)
    requires
        old(book).wf(),
    ensures
        final(book).wf(),
        adds_if_room(*old(book), *final(book), order_id, buy, price, qty),
{
    if book.can_add() {
        book.add_order(order_id, buy, price, qty);
    }
}

/// Applies one message to the book: Add Order rests an order, Order Cancel
/// and Order Delete remove it, Order Executed takes shares off it.
pub fn apply_message(book: &mut OrderBook, msg: &Message)
    requires
        old(book).wf(),
    ensures
        final(book).wf(),
        feeds(*old(book), *final(book), *msg),
{
    match msg {
        Message::AddOrder(a) => add_if_room(book, a.order_ref, a.buy, a.price as u64, a.shares),
        Message::OrderCancel(c) => {
            book.cancel_order(c.order_ref);
        },
        Message::OrderDelete(d) => {
            book.delete_order(d.order_ref);
        },
        Message::OrderExecuted(e) => {
            book.execute_order(e.order_ref, e.executed_shares);
        },
        _ => {},
    }
}

/// The best bid and best ask prices of `book`, `None` for an empty side.
pub open spec fn top_of_book(book: OrderBook) -> (Option<u64>, Option<u64>) {
    (
        if book.bids().len() == 0 {
            None
        } else {
            Some(book.bids()[0].price)
        },
        if book.asks().len() == 0 {
            None
        } else {
            Some(book.asks()[0].price)
        },
    )
}

fn same_price(a: Option<u64>, b: Option<u64>) -> (r: bool)
    ensures
        r == (a == b),
{
    match (a, b) {
        (Some(x), Some(y)) => x == y,
        (None, None) => true,
        _ => false,
    }
}

/// Applies one message as [`apply_message`] does and reports whether the
/// best bid or the best ask price changed.
pub fn apply_message_bbo(book: &mut OrderBook, msg: &Message) -> (changed: bool)
    requires
        old(book).wf(),
    ensures
        final(book).wf(),
        feeds(*old(book), *final(book), *msg),
        changed == (top_of_book(*old(book)) != top_of_book(*final(book))),
{
    let bid0 = book.best_bid();
    let ask0 = book.best_ask();
    apply_message(book, msg);
    let bid1 = book.best_bid();
    let ask1 = book.best_ask();
    !(same_price(bid0, bid1) && same_price(ask0, ask1))
}

/// Applies one message the way the strategy pipeline reads the feed:
/// adds with or without attribution rest an order, executions with or
/// without price and partial cancels take shares off it, deletes remove it.
pub fn apply_to_book(book: &mut OrderBook, msg: &Message)
    requires
        old(book).wf(),
    ensures
        final(book).wf(),
        updates(*old(book), *final(book), *msg),
{
    match msg {
        Message::AddOrder(a) => add_if_room(book, a.order_ref, a.buy, a.price as u64, a.shares),
        Message::AddOrderMpid(f) => add_if_room(book, f.order_ref, f.buy, f.price as u64, f.shares),
        Message::OrderExecuted(e) => {
            book.execute_order(e.order_ref, e.executed_shares);
        },
        Message::OrderExecutedWithPrice(c) => {
            book.execute_order(c.order_ref, c.executed_shares);
        },
        Message::OrderCancel(x) => {
            book.execute_order(x.order_ref, x.canceled_shares);
        },
        Message::OrderDelete(d) => {
            book.delete_order(d.order_ref);
        },
        _ => {},
    }
}

/// Applies `msgs[k]` after `msgs[..k]`: the chain of books grows by one.
pub proof fn lemma_feeds_all_step(before: OrderBook, mid: OrderBook, after: OrderBook, msgs: Seq<Message>, k: int)
    requires
        0 <= k < msgs.len(),
        mid.wf(),
        feeds_all(before, mid, msgs.take(k)),
        feeds(mid, after, msgs[k]),
    ensures
        feeds_all(before, after, msgs.take(k + 1)),
{
    let t = msgs.take(k + 1);
    assert(t.drop_last() =~= msgs.take(k));
    assert(t.last() == msgs[k]);
}

/// A message applied by [`apply_message`] acts on the book as the book
/// operation it names, on the fields it carries: an Add Order adds its
/// order on its side when a slot is left and changes nothing otherwise,
/// an Order Cancel or Order Delete cancels its id, an Order Executed
/// executes its shares of its id, and any other message changes nothing.
pub proof fn lemma_feed_acts_as_book_call(before: OrderBook, after: OrderBook, msg: Message)
    requires
        feeds(before, after, msg),
    ensures
        match msg {
            Message::AddOrder(a) => if before.has_room() {
                before.adds(after, a.order_ref, a.buy, a.price as u64, a.shares)
            } else {
                after == before
            },
            Message::OrderCancel(c) => before.cancels(after, c.order_ref, before.cancel_hits(c.order_ref)),
            Message::OrderDelete(d) => before.cancels(after, d.order_ref, before.cancel_hits(d.order_ref)),
            Message::OrderExecuted(e) => before.executes(
                after,
                e.order_ref,
                e.executed_shares,
                before.cancel_hits(e.order_ref),
            ),
            _ => after == before,
        },
{
}

/// A message applied by [`apply_to_book`] acts on the book as the book
/// operation it names, on the fields it carries: both kinds of add add
/// their order on their side when a slot is left, both kinds of execution
/// and an Order Cancel execute their shares of their id, an Order Delete
/// cancels its id, and any other message changes nothing.
pub proof fn lemma_update_acts_as_book_call(before: OrderBook, after: OrderBook, msg: Message)
    requires
        updates(before, after, msg),
    ensures
        match msg {
            Message::AddOrder(a) => if before.has_room() {
                before.adds(after, a.order_ref, a.buy, a.price as u64, a.shares)
            } else {
                after == before
            },
            Message::AddOrderMpid(f) => if before.has_room() {
                before.adds(after, f.order_ref, f.buy, f.price as u64, f.shares)
            } else {
                after == before
            },
            Message::OrderExecuted(e) => before.executes(
                after,
                e.order_ref,
                e.executed_shares,
                before.cancel_hits(e.order_ref),
            ),
            Message::OrderExecutedWithPrice(c) => before.executes(
                after,
                c.order_ref,
                c.executed_shares,
                before.cancel_hits(c.order_ref),
            ),
            Message::OrderCancel(x) => before.executes(
                after,
                x.order_ref,
                x.canceled_shares,
                before.cancel_hits(x.order_ref),
            ),
            Message::OrderDelete(d) => before.cancels(after, d.order_ref, before.cancel_hits(d.order_ref)),
            _ => after == before,
        },
{
}

/// Feeding an Order Executed of a resting order takes its shares off it:
/// fewer shares than it holds leave it resting with the remainder, at least
/// as many take it off both sides so that its id no longer acts. An Order
/// Executed of an id that acts on no order changes no side.
pub proof fn lemma_feed_execution(before: OrderBook, after: OrderBook, e: OrderExecuted)
    requires
        before.wf(),
        feeds(before, after, Message::OrderExecuted(e)),
    ensures
        ({
            let id = e.order_ref;
            let k = before.cancel_target(id)->0;
            let q = before.order_in(k as int).qty;
            if before.cancel_hits(id) {
                if e.executed_shares < q {
                    &&& after.cancel_hits(id)
                    &&& after.cancel_target(id) == Some(k)
                    &&& after.order_in(k as int).qty == q - e.executed_shares
                    &&& after.bid_slots() == before.bid_slots()
                    &&& after.ask_slots() == before.ask_slots()
                } else {
                    &&& !after.cancel_hits(id)
                    &&& !after.bid_slots().contains(k as u32)
                    &&& !after.ask_slots().contains(k as u32)
                }
            } else {
                after.bids() == before.bids() && after.asks() == before.asks()
            }
        }),
{
    let id = e.order_ref;
    let r = before.cancel_hits(id);
    if r {
        let k = before.cancel_target(id)->0;
        if e.executed_shares < before.order_in(k as int).qty {
            lemma_partial_execution(before, after, id, e.executed_shares, r);
        } else {
            lemma_full_execution(before, after, id, e.executed_shares, r);
        }
    } else {
        lemma_cancel_removes(before, after, id, r);
    }
}

/// Applying an Order Delete of a resting order in [`apply_to_book`] takes
/// it off the book: its slot leaves both sides, no side grows, and its id
/// no longer acts. An Order Delete of an id that acts on no order changes
/// no side.
pub proof fn lemma_update_delete(before: OrderBook, after: OrderBook, d: OrderDelete)
    requires
        before.wf(),
        updates(before, after, Message::OrderDelete(d)),
    ensures
        ({
            let id = d.order_ref;
            let k = before.cancel_target(id)->0;
            if before.cancel_hits(id) {
                &&& !after.cancel_hits(id)
                &&& !after.bid_slots().contains(k as u32)
                &&& !after.ask_slots().contains(k as u32)
                &&& after.bids().len() + after.asks().len() <= before.bids().len() + before.asks().len()
            } else {
                after.bids() == before.bids() && after.asks() == before.asks()
            }
        }),
{
    lemma_cancel_removes(before, after, d.order_ref, before.cancel_hits(d.order_ref));
}

} // verus!
